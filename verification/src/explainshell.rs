//! Explanations of shell commands as the explainshell web pages give them:
//! URL encoding of the query, parsing of the page into an [`Explanation`],
//! and the JSON text that the panes exchange.
use vstd::prelude::*;
use crate::text::{
    lemma_line_end, lemma_trim, line_end, lines_from, strip_cr,
    push_signed_decimal, push_str, signed_decimal, chars_eq, owned, push_chars, push_range, starts_with, starts_with_chars, contains, decimal, find, find_chars, find_chars_from, find_from, lemma_find_from, matches_at,
    occurs_at, push_decimal, slice_of, is_whitespace, is_ws, contains_str, digit, digit_char, ends_with, ends_with_chars, extend, lines, lines_chars,
    replace, replace_str, to_chars, to_string, trim, trim_chars, views,
};

verus! {

/// One part of a command together with its explanation.
#[derive(Clone, Debug)]
pub struct Match {
    pub index: usize,
    pub source: String,
    pub explanation: String,
    pub start: usize,
    pub end: usize,
}

/// A command, its normalized form, and the explanations of its parts.
#[derive(Clone, Debug)]
pub struct Explanation {
    pub command: String,
    pub formatted_command: Option<String>,
    pub error: Option<String>,
    pub matches: Vec<Match>,
}

/// The view of a match: (index, source, explanation, start, end).
pub type MatchView = (usize, Seq<char>, Seq<char>, usize, usize);

/// The view of an explanation: (command, formatted command, error, matches).
pub type ExplanationView = (Seq<char>, Option<Seq<char>>, Option<Seq<char>>, Seq<MatchView>);

impl View for Match {
    type V = MatchView;

    open spec fn view(&self) -> MatchView {
        (self.index, self.source@, self.explanation@, self.start, self.end)
    }
}

pub open spec fn opt_view(o: Option<String>) -> Option<Seq<char>> {
    match o {
        Some(s) => Some(s@),
        None => None,
    }
}

pub open spec fn match_views(v: Seq<Match>) -> Seq<MatchView> {
    Seq::new(v.len(), |k: int| v[k]@)
}

impl View for Explanation {
    type V = ExplanationView;

    open spec fn view(&self) -> ExplanationView {
        (self.command@, opt_view(self.formatted_command), opt_view(self.error), match_views(self.matches@))
    }
}

// ---------------------------------------------------------------------------
// URL encoding
// ---------------------------------------------------------------------------

/// The upper-case hexadecimal digit for `d < 16`.
pub open spec fn hex_upper(d: nat) -> char {
    if d < 10 {
        digit_char(d)
    } else {
        ((55 + d) as u32) as char
    }
}

/// A byte is kept as it is in a query parameter.
pub open spec fn url_unreserved(b: u8) -> bool {
    ||| (65 <= b && b <= 90)
    ||| (97 <= b && b <= 122)
    ||| (48 <= b && b <= 57)
    ||| b == 45
    ||| b == 95
    ||| b == 46
    ||| b == 126
}

/// The encoding of one byte: itself, `+` for a space, or `%XY`.
pub open spec fn url_encode_byte(b: u8) -> Seq<char> {
    if url_unreserved(b) {
        seq![(b as u32) as char]
    } else if b == 32 {
        seq!['+']
    } else {
        seq!['%', hex_upper((b / 16) as nat), hex_upper((b % 16) as nat)]
    }
}

/// The encoding of a byte string, byte by byte.
pub open spec fn url_encoded(bytes: Seq<u8>) -> Seq<char>
    decreases bytes.len(),
{
    if bytes.len() == 0 {
        Seq::empty()
    } else {
        url_encoded(bytes.drop_last()) + url_encode_byte(bytes.last())
    }
}

fn hex_digit(d: u8) -> (c: char)
    requires
        d < 16,
    ensures
        c == hex_upper(d as nat),
{
    if d < 10 {
        digit(d as u64)
    } else if d == 10 {
        'A'
    } else if d == 11 {
        'B'
    } else if d == 12 {
        'C'
    } else if d == 13 {
        'D'
    } else if d == 14 {
        'E'
    } else {
        'F'
    }
}

/// URL-encodes a string for a query parameter: the bytes of its UTF-8
/// encoding, letters, digits and `-_.~` kept, a space as `+`, every other
/// byte as `%` and two upper-case hexadecimal digits.
pub fn url_encode(input: &str) -> (r: String)
    ensures
        r@ == url_encoded(vstd::utf8::encode_utf8(input@)),
{
    let bytes = input.as_bytes();
    let mut encoded = String::new();
    let mut i: usize = 0;
    assert(bytes@.take(0) == Seq::<u8>::empty());
    while i < bytes.len()
        invariant
            i <= bytes@.len(),
            bytes@ == vstd::utf8::encode_utf8(input@),
            encoded@ == url_encoded(bytes@.take(i as int)),
        decreases bytes.len() - i,
    {
        let b = bytes[i];
        assert(bytes@.take(i + 1).drop_last() == bytes@.take(i as int));
        if (65 <= b && b <= 90) || (97 <= b && b <= 122) || (48 <= b && b <= 57) || b == 45 || b
            == 95 || b == 46 || b == 126 {
            encoded.push(b as char);
        } else if b == 32 {
            encoded.push('+');
        } else {
            encoded.push('%');
            encoded.push(hex_digit(b / 16));
            encoded.push(hex_digit(b % 16));
        }
        i += 1;
    }
    assert(bytes@.take(bytes@.len() as int) == bytes@);
    encoded
}

// ---------------------------------------------------------------------------
// Response validity
// ---------------------------------------------------------------------------

/// A page that explainshell answers with: explanations, or one of its two
/// error pages.
pub open spec fn valid_response(html: Seq<char>) -> bool {
    contains(html, "help-box"@) || contains(html, "missing man page"@) || contains(
        html,
        "parsing error"@,
    )
}

/// Whether a page is an explainshell answer.
pub fn is_valid_response(html: &str) -> (b: bool)
    ensures
        b == valid_response(html@),
{
    let h = to_chars(html);
    contains_str(&h, "help-box") || contains_str(&h, "missing man page") || contains_str(
        &h,
        "parsing error",
    )
}

// ---------------------------------------------------------------------------
// JSON escaping
// ---------------------------------------------------------------------------

/// The JSON escape of one character.
pub open spec fn escape_char(c: char) -> Seq<char> {
    if c == '"' {
        seq!['\\', '"']
    } else if c == '\\' {
        seq!['\\', '\\']
    } else if c == '\n' {
        seq!['\\', 'n']
    } else if c == '\r' {
        seq!['\\', 'r']
    } else if c == '\t' {
        seq!['\\', 't']
    } else {
        seq![c]
    }
}

/// The JSON escape of a text, character by character.
pub open spec fn escaped(s: Seq<char>) -> Seq<char>
    decreases s.len(),
{
    if s.len() == 0 {
        Seq::empty()
    } else {
        escape_char(s[0]) + escaped(s.drop_first())
    }
}

/// Appends the JSON escape of `s` to `out`.
pub fn push_escaped(out: &mut String, s: &Vec<char>)
    ensures
        final(out)@ == old(out)@ + escaped(s@),
{
    let mut i: usize = 0;
    assert(s@.skip(0) == s@);
    while i < s.len()
        invariant
            i <= s.len(),
            out@ + escaped(s@.skip(i as int)) == old(out)@ + escaped(s@),
        decreases s.len() - i,
    {
        let c = s[i];
        let ghost o = out@;
        assert(s@.skip(i as int).drop_first() == s@.skip(i + 1));
        if c == '"' {
            out.push('\\');
            out.push('"');
        } else if c == '\\' {
            out.push('\\');
            out.push('\\');
        } else if c == '\n' {
            out.push('\\');
            out.push('n');
        } else if c == '\r' {
            out.push('\\');
            out.push('r');
        } else if c == '\t' {
            out.push('\\');
            out.push('t');
        } else {
            out.push(c);
        }
        assert(out@ == o + escape_char(c));
        assert(o + escaped(s@.skip(i as int)) == o + (escape_char(c) + escaped(s@.skip(i + 1))));
        i += 1;
    }
    assert(s@.skip(i as int) == Seq::<char>::empty());
    assert(out@ + Seq::<char>::empty() == out@);
}

/// Escapes the characters that JSON strings cannot hold as they are:
/// `"`, `\`, line feed, carriage return and tab.
pub fn escape_json(s: &str) -> (r: String)
    ensures
        r@ == escaped(s@),
{
    let v = to_chars(s);
    let mut r = String::new();
    push_escaped(&mut r, &v);
    r
}

// ---------------------------------------------------------------------------
// Tag stripping
// ---------------------------------------------------------------------------

/// The page with paragraph ends, line breaks, list items and table cells
/// and rows turned into line feeds and spaces, in this order.
pub open spec fn tag_breaks(html: Seq<char>) -> Seq<char> {
    let a = replace(html, "</p>"@, "\n\n"@);
    let b = replace(a, "<br>"@, "\n"@);
    let c = replace(b, "<br/>"@, "\n"@);
    let d = replace(c, "<br />"@, "\n"@);
    let e = replace(d, "</li>"@, "\n"@);
    let f = replace(e, "</td>"@, " "@);
    replace(f, "</tr>"@, "\n"@)
}

/// One step of the tag-stripping scan over (output, inside a tag, last
/// character written was white space).
pub open spec fn strip_step(st: (Seq<char>, bool, bool), c: char) -> (Seq<char>, bool, bool) {
    let out = st.0;
    let in_tag = st.1;
    let last_was_space = st.2;
    if c == '<' {
        (out, true, last_was_space)
    } else if c == '>' {
        (out, false, last_was_space)
    } else if in_tag {
        st
    } else if is_ws(c) {
        if c == '\n' || c == '\r' {
            (
                if out.len() > 0 && out.last() == '\n' {
                    out
                } else {
                    out.push('\n')
                },
                in_tag,
                true,
            )
        } else if !last_was_space {
            (out.push(' '), in_tag, true)
        } else {
            st
        }
    } else {
        (out.push(c), in_tag, false)
    }
}

/// The tag-stripping scan over a whole text.
pub open spec fn strip_scan(s: Seq<char>) -> (Seq<char>, bool, bool)
    decreases s.len(),
{
    if s.len() == 0 {
        (Seq::empty(), false, false)
    } else {
        strip_step(strip_scan(s.drop_last()), s.last())
    }
}

/// One step of the blank-line collapsing: a non-blank line is kept trimmed,
/// a blank one becomes a line feed unless the text is empty or already ends
/// with an empty line.
pub open spec fn collapse_step(cleaned: Seq<char>, line: Seq<char>) -> Seq<char> {
    let t = trim(line);
    if t.len() > 0 {
        cleaned + t + seq!['\n']
    } else if !ends_with(cleaned, seq!['\n', '\n']) && cleaned.len() > 0 {
        cleaned.push('\n')
    } else {
        cleaned
    }
}

/// The blank-line collapsing over a sequence of lines.
pub open spec fn collapse_lines(ls: Seq<Seq<char>>) -> Seq<char>
    decreases ls.len(),
{
    if ls.len() == 0 {
        Seq::empty()
    } else {
        collapse_step(collapse_lines(ls.drop_last()), ls.last())
    }
}

/// The text of a page: breaks turned into line feeds, tags removed, runs of
/// white space collapsed, lines trimmed, blank lines collapsed, and the
/// whole trimmed.
pub open spec fn stripped_html(html: Seq<char>) -> Seq<char> {
    trim(collapse_lines(lines(strip_scan(tag_breaks(html)).0)))
}

/// The page with its break tags turned into line feeds and spaces.
fn break_tags(v: &Vec<char>) -> (r: Vec<char>)
    ensures
        r@ == tag_breaks(v@),
{
    proof {
        reveal_strlit("</p>");
        reveal_strlit("<br>");
        reveal_strlit("<br/>");
        reveal_strlit("<br />");
        reveal_strlit("</li>");
        reveal_strlit("</td>");
        reveal_strlit("</tr>");
    }
    let a = replace_str(v, "</p>", "\n\n");
    let b = replace_str(&a, "<br>", "\n");
    let c = replace_str(&b, "<br/>", "\n");
    let d = replace_str(&c, "<br />", "\n");
    let e = replace_str(&d, "</li>", "\n");
    let f = replace_str(&e, "</td>", " ");
    replace_str(&f, "</tr>", "\n")
}

/// The tag-stripping scan.
fn scan_tags(v: &Vec<char>) -> (r: Vec<char>)
    ensures
        r@ == strip_scan(v@).0,
{
    let mut out: Vec<char> = Vec::new();
    let mut in_tag = false;
    let mut last_was_space = false;
    let mut i: usize = 0;
    assert(v@.take(0) == Seq::<char>::empty());
    while i < v.len()
        invariant
            i <= v.len(),
            (out@, in_tag, last_was_space) == strip_scan(v@.take(i as int)),
        decreases v.len() - i,
    {
        let c = v[i];
        assert(v@.take(i + 1).drop_last() == v@.take(i as int));
        if c == '<' {
            in_tag = true;
        } else if c == '>' {
            in_tag = false;
        } else if !in_tag {
            if is_whitespace(c) {
                if c == '\n' || c == '\r' {
                    if !(out.len() > 0 && out[out.len() - 1] == '\n') {
                        out.push('\n');
                    }
                    last_was_space = true;
                } else if !last_was_space {
                    out.push(' ');
                    last_was_space = true;
                }
            } else {
                out.push(c);
                last_was_space = false;
            }
        }
        i += 1;
    }
    assert(v@.take(v.len() as int) == v@);
    out
}

/// Cleans up HTML content: strips the tags and keeps the line structure
/// (paragraphs, breaks, list items and table rows become line feeds), with
/// white space collapsed and blank lines reduced to one.
pub fn strip_html_tags(html: &str) -> (r: String)
    ensures
        r@ == stripped_html(html@),
{
    let v = to_chars(html);
    let t = strip_html_chars(&v);
    to_string(&t)
}

/// The text of a page, as characters.
pub fn strip_html_chars(v: &Vec<char>) -> (r: Vec<char>)
    ensures
        r@ == stripped_html(v@),
{
    let pre = break_tags(v);
    let out = scan_tags(&pre);
    let ls = lines_chars(&out);
    let mut cleaned: Vec<char> = Vec::new();
    let mut k: usize = 0;
    let nl2 = vec!['\n', '\n'];
    assert(views(ls@).take(0) == Seq::<Seq<char>>::empty());
    while k < ls.len()
        invariant
            k <= ls.len(),
            views(ls@) == lines(out@),
            nl2@ == seq!['\n', '\n'],
            cleaned@ == collapse_lines(views(ls@).take(k as int)),
        decreases ls.len() - k,
    {
        let t = trim_chars(&ls[k]);
        assert(views(ls@).take(k + 1).drop_last() == views(ls@).take(k as int));
        assert(views(ls@).take(k + 1).last() == ls@[k as int]@);
        if t.len() > 0 {
            extend(&mut cleaned, &t);
            cleaned.push('\n');
        } else if !ends_with_chars(&cleaned, &nl2) && cleaned.len() > 0 {
            cleaned.push('\n');
        }
        k += 1;
    }
    assert(views(ls@).take(ls.len() as int) == views(ls@));
    trim_chars(&cleaned)
}

// ---------------------------------------------------------------------------
// Entities
// ---------------------------------------------------------------------------

/// The text with the five entities `&amp;`, `&lt;`, `&gt;`, `&quot;` and
/// `&#39;` decoded, one kind after the other in this order.
pub open spec fn entities_decoded(s: Seq<char>) -> Seq<char> {
    replace(replace(replace(replace(replace(s, "&amp;"@, "&"@), "&lt;"@, "<"@), "&gt;"@, ">"@), "&quot;"@, "\""@), "&#39;"@, "'"@)
}

/// Decodes the five HTML entities, each kind over the whole text in turn.
pub fn decode_html(s: &str) -> (r: String)
    ensures
        r@ == entities_decoded(s@),
{
    proof {
        reveal_strlit("&amp;");
        reveal_strlit("&lt;");
        reveal_strlit("&gt;");
        reveal_strlit("&quot;");
        reveal_strlit("&#39;");
    }
    let v = to_chars(s);
    let a = replace_str(&v, "&amp;", "&");
    let b = replace_str(&a, "&lt;", "<");
    let c = replace_str(&b, "&gt;", ">");
    let d = replace_str(&c, "&quot;", "\"");
    let e = replace_str(&d, "&#39;", "'");
    to_string(&e)
}

// ---------------------------------------------------------------------------
// The command line of a page
// ---------------------------------------------------------------------------

/// A span of the formatted command: (start, end, help box id).
pub type SpanView = (int, int, Seq<char>);

pub open spec fn span_views(v: Seq<(usize, usize, Vec<char>)>) -> Seq<SpanView> {
    Seq::new(v.len(), |k: int| (v[k].0 as int, v[k].1 as int, v[k].2@))
}

pub open spec fn opt_chars_view(o: Option<Vec<char>>) -> Option<Seq<char>> {
    match o {
        Some(v) => Some(v@),
        None => None,
    }
}

/// What an opening `<span ...>` tag does to the open span: a `helpref`
/// attribute opens a span for that help box, a tag of an `unknown` class
/// opens one for an unknown part, any other tag changes nothing.
pub open spec fn span_open(tag: Seq<char>, f_len: int, active: Option<Seq<char>>, astart: int) -> (
    Option<Seq<char>>,
    int,
) {
    match find(tag, "helpref=\""@) {
        Some(hi) => {
            let sq = hi + ("helpref=\""@).len();
            match find_from(tag, seq!['"'], sq) {
                Some(eq) => (Some(tag.subrange(sq, eq)), f_len),
                None => (active, astart),
            }
        },
        None => if contains(tag, "class=\""@) && contains(tag, "unknown"@) {
            (Some("unknown-"@ + decimal(f_len as nat)), f_len)
        } else {
            (active, astart)
        },
    }
}

/// The text after position `i` of a non-white-space character or a single
/// space, as the scan appends it.
pub open spec fn push_text(f: Seq<char>, c: char) -> Seq<char> {
    if is_ws(c) {
        if f.len() > 0 && f.last() != ' ' {
            f.push(' ')
        } else {
            f
        }
    } else {
        f.push(c)
    }
}

/// The scan of the command fragment `h` from position `i`, with the
/// formatted text `f` so far, the closed spans, the open span's help id and
/// where it started. It skips drop-down menus and tags, records spans,
/// decodes the five entities, and collapses white space; at the end the
/// text is trimmed.
pub open spec fn command_scan(
    h: Seq<char>,
    i: int,
    f: Seq<char>,
    spans: Seq<SpanView>,
    active: Option<Seq<char>>,
    astart: int,
) -> (Seq<char>, Seq<SpanView>)
    decreases h.len() - i,
{
    if i < 0 || i >= h.len() {
        (trim(f), spans)
    } else if occurs_at(h, "<ul class=\"dropdown-menu\""@, i) && find_from(h, "</ul>"@, i) is Some {
        let e = find_from(h, "</ul>"@, i)->0;
        proof {
            lemma_find_from(h, "</ul>"@, i);
            reveal_strlit("</ul>");
        }
        command_scan(h, e + ("</ul>"@).len(), f, spans, active, astart)
    } else if occurs_at(h, "<span"@, i) && find_from(h, seq!['>'], i) is Some {
        let e = find_from(h, seq!['>'], i)->0;
        proof {
            lemma_find_from(h, seq!['>'], i);
        }
        let opened = span_open(h.subrange(i, e + 1), f.len() as int, active, astart);
        command_scan(h, e + 1, f, spans, opened.0, opened.1)
    } else if occurs_at(h, "</span"@, i) && find_from(h, seq!['>'], i) is Some {
        let e = find_from(h, seq!['>'], i)->0;
        proof {
            lemma_find_from(h, seq!['>'], i);
        }
        match active {
            Some(id) => command_scan(h, e + 1, f, spans.push((astart, f.len() as int, id)), None, astart),
            None => command_scan(h, e + 1, f, spans, None, astart),
        }
    } else if h[i] == '<' && find_from(h, seq!['>'], i) is Some {
        let e = find_from(h, seq!['>'], i)->0;
        proof {
            lemma_find_from(h, seq!['>'], i);
        }
        command_scan(h, e + 1, f, spans, active, astart)
    } else if occurs_at(h, "&amp;"@, i) {
        proof {
            reveal_strlit("&amp;");
        }
        command_scan(h, i + ("&amp;"@).len(), f.push('&'), spans, active, astart)
    } else if occurs_at(h, "&lt;"@, i) {
        proof {
            reveal_strlit("&lt;");
        }
        command_scan(h, i + ("&lt;"@).len(), f.push('<'), spans, active, astart)
    } else if occurs_at(h, "&gt;"@, i) {
        proof {
            reveal_strlit("&gt;");
        }
        command_scan(h, i + ("&gt;"@).len(), f.push('>'), spans, active, astart)
    } else if occurs_at(h, "&quot;"@, i) {
        proof {
            reveal_strlit("&quot;");
        }
        command_scan(h, i + ("&quot;"@).len(), f.push('"'), spans, active, astart)
    } else if occurs_at(h, "&#39;"@, i) {
        proof {
            reveal_strlit("&#39;");
        }
        command_scan(h, i + ("&#39;"@).len(), f.push('\''), spans, active, astart)
    } else {
        command_scan(h, i + 1, push_text(f, h[i]), spans, active, astart)
    }
}

/// The formatted command and its spans, for a command fragment.
pub open spec fn command_div(h: Seq<char>) -> (Seq<char>, Seq<SpanView>) {
    command_scan(h, 0, Seq::empty(), Seq::empty(), None, 0)
}

/// The decimal representation of `n` as characters.
fn decimal_chars(n: u64) -> (v: Vec<char>)
    ensures
        v@ == decimal(n as nat),
{
    let mut s = String::new();
    push_decimal(&mut s, n);
    to_chars(s.as_str())
}

/// The help id that an opening span tag sets, if any.
fn open_span(tag: &Vec<char>, f_len: usize, active: Option<Vec<char>>, astart: usize) -> (r: (
    Option<Vec<char>>,
    usize,
))
    ensures
        (opt_chars_view(r.0), r.1 as int) == span_open(
            tag@,
            f_len as int,
            opt_chars_view(active),
            astart as int,
        ),
{
    let helpref = to_chars("helpref=\"");
    match find_chars(tag, &helpref) {
        Some(hi) => {
            proof {
                lemma_find_from(tag@, helpref@, 0);
                assert(find(tag@, helpref@) == Some(hi as int));
                assert(hi + helpref.len() <= tag.len());
            }
            let sq = hi + helpref.len();
            let quote = vec!['"'];
            assert(quote@ == seq!['"']);
            match find_chars_from(tag, &quote, sq) {
                Some(eq) => {
                    proof {
                        lemma_find_from(tag@, quote@, sq as int);
                        assert(find_from(tag@, quote@, sq as int) == Some(eq as int));
                    }
                    (Some(slice_of(tag, sq, eq)), f_len)
                },
                None => (active, astart),
            }
        },
        None => {
            if contains_str(tag, "class=\"") && contains_str(tag, "unknown") {
                let mut id = to_chars("unknown-");
                let d = decimal_chars(f_len as u64);
                assert((f_len as u64) as nat == f_len as nat);
                extend(&mut id, &d);
                (Some(id), f_len)
            } else {
                (active, astart)
            }
        },
    }
}

/// Parses the `<div id="command">` fragment of a page into the formatted
/// command and the spans that refer to help boxes, as (start, end, id) in
/// characters of the formatted command.
fn parse_command_div(h: &Vec<char>) -> (r: (Vec<char>, Vec<(usize, usize, Vec<char>)>))
    ensures
        (r.0@, span_views(r.1@)) == command_div(h@),
        forall|k: int| 0 <= k < r.1.len() ==> (#[trigger] r.1@[k]).0 <= r.1@[k].1,
{
    let dropdown = to_chars("<ul class=\"dropdown-menu\"");
    let ul_end = to_chars("</ul>");
    let span_open_pat = to_chars("<span");
    let span_close_pat = to_chars("</span");
    let gt = vec!['>'];
    let amp = to_chars("&amp;");
    let lt = to_chars("&lt;");
    let gt_ent = to_chars("&gt;");
    let quot = to_chars("&quot;");
    let apos = to_chars("&#39;");
    proof {
        reveal_strlit("</ul>");
        reveal_strlit("&amp;");
        reveal_strlit("&lt;");
        reveal_strlit("&gt;");
        reveal_strlit("&quot;");
        reveal_strlit("&#39;");
    }
    let mut formatted: Vec<char> = Vec::new();
    let mut spans: Vec<(usize, usize, Vec<char>)> = Vec::new();
    let mut active: Option<Vec<char>> = None;
    let mut astart: usize = 0;
    let mut i: usize = 0;
    assert(span_views(spans@) == Seq::<SpanView>::empty());
    while i < h.len()
        invariant
            i <= h.len(),
            astart <= formatted.len(),
            formatted.len() <= i,
            forall|k: int| 0 <= k < spans.len() ==> (#[trigger] spans@[k]).0 <= spans@[k].1 <= formatted.len(),
            dropdown@ == "<ul class=\"dropdown-menu\""@,
            ul_end@ == "</ul>"@,
            span_open_pat@ == "<span"@,
            span_close_pat@ == "</span"@,
            gt@ == seq!['>'],
            amp@ == "&amp;"@,
            lt@ == "&lt;"@,
            gt_ent@ == "&gt;"@,
            quot@ == "&quot;"@,
            apos@ == "&#39;"@,
            ul_end@.len() == 5,
            amp@.len() == 5,
            lt@.len() == 4,
            gt_ent@.len() == 4,
            quot@.len() == 6,
            apos@.len() == 5,
            command_scan(h@, i as int, formatted@, span_views(spans@), opt_chars_view(active), astart as int)
                == command_div(h@),
        decreases h.len() - i,
    {
        if matches_at(h, &dropdown, i) {
            if let Some(e) = find_chars_from(h, &ul_end, i) {
                proof {
                    lemma_find_from(h@, ul_end@, i as int);
                }
                i = e + 5;
                continue;
            }
        }
        if matches_at(h, &span_open_pat, i) {
            if let Some(e) = find_chars_from(h, &gt, i) {
                proof {
                    lemma_find_from(h@, gt@, i as int);
                }
                let tag = slice_of(h, i, e + 1);
                let (a2, s2) = open_span(&tag, formatted.len(), active, astart);
                active = a2;
                astart = s2;
                i = e + 1;
                continue;
            }
        }
        if matches_at(h, &span_close_pat, i) {
            if let Some(e) = find_chars_from(h, &gt, i) {
                proof {
                    lemma_find_from(h@, gt@, i as int);
                }
                let ghost sv = span_views(spans@);
                match active {
                    Some(id) => {
                        let ghost idv = id@;
                        spans.push((astart, formatted.len(), id));
                        assert(span_views(spans@) == sv.push((astart as int, formatted.len() as int, idv)));
                    },
                    None => {},
                }
                active = None;
                i = e + 1;
                continue;
            }
        }
        if h[i] == '<' {
            if let Some(e) = find_chars_from(h, &gt, i) {
                proof {
                    lemma_find_from(h@, gt@, i as int);
                }
                i = e + 1;
                continue;
            }
        }
        if matches_at(h, &amp, i) {
            formatted.push('&');
            i += 5;
            continue;
        }
        if matches_at(h, &lt, i) {
            formatted.push('<');
            i += 4;
            continue;
        }
        if matches_at(h, &gt_ent, i) {
            formatted.push('>');
            i += 4;
            continue;
        }
        if matches_at(h, &quot, i) {
            formatted.push('"');
            i += 6;
            continue;
        }
        if matches_at(h, &apos, i) {
            formatted.push('\'');
            i += 5;
            continue;
        }
        let c = h[i];
        if is_whitespace(c) {
            if formatted.len() > 0 && formatted[formatted.len() - 1] != ' ' {
                formatted.push(' ');
            }
        } else {
            formatted.push(c);
        }
        i += 1;
    }
    let t = trim_chars(&formatted);
    (t, spans)
}

// ---------------------------------------------------------------------------
// Page parsing
// ---------------------------------------------------------------------------

/// The formatted command and spans of a page's `<div id="command">`, when it
/// has one whose text is not empty.
pub open spec fn command_part(html: Seq<char>) -> (Option<Seq<char>>, Seq<SpanView>) {
    match find(html, "id=\"command\""@) {
        None => (None, Seq::empty()),
        Some(cs) => match find_from(html, seq!['>'], cs) {
            None => (None, Seq::empty()),
            Some(gt) => match find_from(html, "</div>"@, gt + 1) {
                None => (None, Seq::empty()),
                Some(ce) => {
                    let parsed = command_div(html.subrange(gt + 1, ce));
                    if parsed.0.len() > 0 {
                        (Some(parsed.0), parsed.1)
                    } else {
                        (None, Seq::empty())
                    }
                },
            },
        },
    }
}

/// The opening of a help box.
pub open spec fn help_box_tag() -> Seq<char> {
    "<div class=\"help-box\" id=\""@
}

/// The help boxes of a page from position `si` on, as (id, inner HTML), in
/// page order; an opening without its id, tag end or `</div>` is skipped.
pub open spec fn help_boxes_from(h: Seq<char>, si: int) -> Seq<(Seq<char>, Seq<char>)>
    decreases h.len() - si,
{
    if si < 0 || si > h.len() {
        Seq::empty()
    } else {
        match find_from(h, help_box_tag(), si) {
            None => Seq::empty(),
            Some(ds) => {
                proof {
                    lemma_find_from(h, help_box_tag(), si);
                    reveal_strlit("<div class=\"help-box\" id=\"");
                }
                let sp = ds + help_box_tag().len();
                match find_from(h, seq!['"'], sp) {
                    Some(ie) => match find_from(h, seq!['>'], ie) {
                        Some(te) => match find_from(h, "</div>"@, te + 1) {
                            Some(de) => {
                                proof {
                                    lemma_find_from(h, seq!['"'], sp);
                                    lemma_find_from(h, seq!['>'], ie);
                                    lemma_find_from(h, "</div>"@, te + 1);
                                    reveal_strlit("</div>");
                                }
                                seq![(h.subrange(sp, ie), h.subrange(te + 1, de))] + help_boxes_from(
                                    h,
                                    de + ("</div>"@).len(),
                                )
                            },
                            None => help_boxes_from(h, sp),
                        },
                        None => help_boxes_from(h, sp),
                    },
                    None => help_boxes_from(h, sp),
                }
            },
        }
    }
}

/// The help boxes of a page.
pub open spec fn help_boxes(h: Seq<char>) -> Seq<(Seq<char>, Seq<char>)> {
    help_boxes_from(h, 0)
}

/// The text of the first help box with the given id.
pub open spec fn lookup_box(boxes: Seq<(Seq<char>, Seq<char>)>, id: Seq<char>) -> Option<Seq<char>>
    decreases boxes.len(),
{
    if boxes.len() == 0 {
        None
    } else if boxes[0].0 == id {
        Some(boxes[0].1)
    } else {
        lookup_box(boxes.drop_first(), id)
    }
}

/// The explanation given for a part that explainshell does not know.
pub open spec fn unknown_help() -> Seq<char> {
    "Unknown option / argument (no explanation available in explainshell)"@
}

/// The text of a span: its characters of the formatted command, or its id.
pub open spec fn span_source(fc: Option<Seq<char>>, st: int, en: int, id: Seq<char>) -> Seq<char> {
    match fc {
        Some(f) => f.subrange(
            if st < f.len() {
                st
            } else {
                f.len() as int
            },
            if en < f.len() {
                en
            } else {
                f.len() as int
            },
        ),
        None => id,
    }
}

/// The explanation of a span: the unknown-part text for an `unknown-` id,
/// else its help box.
pub open spec fn span_help(boxes: Seq<(Seq<char>, Seq<char>)>, id: Seq<char>) -> Option<Seq<char>> {
    if starts_with(id, "unknown-"@) {
        Some(unknown_help())
    } else {
        lookup_box(boxes, id)
    }
}

/// The matches of the spans that have an explanation, numbered from 0.
pub open spec fn assemble(spans: Seq<SpanView>, boxes: Seq<(Seq<char>, Seq<char>)>, fc: Option<Seq<char>>) -> Seq<MatchView>
    decreases spans.len(),
{
    if spans.len() == 0 {
        Seq::empty()
    } else {
        let prev = assemble(spans.drop_last(), boxes, fc);
        let sp = spans.last();
        match span_help(boxes, sp.2) {
            Some(ht) => prev.push((prev.len() as usize, span_source(fc, sp.0, sp.1, sp.2), ht, sp.0 as usize, sp.1 as usize)),
            None => prev,
        }
    }
}

/// The help boxes themselves as matches, numbered from 0.
pub open spec fn box_matches(boxes: Seq<(Seq<char>, Seq<char>)>) -> Seq<MatchView> {
    Seq::new(boxes.len(), |k: int| (k as usize, boxes[k].0, boxes[k].1, 0usize, 0usize))
}

/// The explanation that a page gives of a command.
pub open spec fn parsed_html(cmd: Seq<char>, html: Seq<char>) -> ExplanationView {
    if contains(html, "missing man page"@) {
        (cmd, None, Some("missing man page"@), Seq::empty())
    } else if contains(html, "parsing error"@) {
        (cmd, None, Some("parsing error"@), Seq::empty())
    } else {
        let cp = command_part(html);
        let boxes = help_boxes(html);
        let m = assemble(cp.1, boxes, cp.0);
        (cmd, cp.0, None, if m.len() > 0 { m } else { box_matches(boxes) })
    }
}

pub open spec fn box_views(v: Seq<(Vec<char>, Vec<char>)>) -> Seq<(Seq<char>, Seq<char>)> {
    Seq::new(v.len(), |k: int| (v[k].0@, v[k].1@))
}

fn find_command_part(h: &Vec<char>) -> (r: (Option<Vec<char>>, Vec<(usize, usize, Vec<char>)>))
    ensures
        (opt_chars_view(r.0), span_views(r.1@)) == command_part(h@),
        forall|k: int| 0 <= k < r.1.len() ==> (#[trigger] r.1@[k]).0 <= r.1@[k].1,
{
    let cmd_id = to_chars("id=\"command\"");
    let gt = vec!['>'];
    assert(gt@ == seq!['>']);
    let div_end = to_chars("</div>");
    let empty: Vec<(usize, usize, Vec<char>)> = Vec::new();
    assert(span_views(empty@) == Seq::<SpanView>::empty());
    match find_chars(h, &cmd_id) {
        None => (None, empty),
        Some(cs) => match find_chars_from(h, &gt, cs) {
            None => (None, empty),
            Some(g) => {
                proof {
                    lemma_find_from(h@, gt@, cs as int);
                    assert(find_from(h@, gt@, cs as int) == Some(g as int));
                    assert(occurs_at(h@, gt@, g as int));
                    assert(g + 1 <= h.len());
                }
                match find_chars_from(h, &div_end, g + 1) {
                    None => (None, empty),
                    Some(ce) => {
                        proof {
                            lemma_find_from(h@, div_end@, g + 1);
                            assert(find_from(h@, div_end@, g + 1) == Some(ce as int));
                        }
                        let frag = slice_of(h, g + 1, ce);
                        let (f, s) = parse_command_div(&frag);
                        if f.len() > 0 {
                            (Some(f), s)
                        } else {
                            (None, empty)
                        }
                    },
                }
            },
        },
    }
}

fn find_help_boxes(h: &Vec<char>) -> (r: Vec<(Vec<char>, Vec<char>)>)
    ensures
        box_views(r@) == help_boxes(h@),
{
    let tag = to_chars("<div class=\"help-box\" id=\"");
    let quote = vec!['"'];
    let gt = vec!['>'];
    let div_end = to_chars("</div>");
    proof {
        reveal_strlit("<div class=\"help-box\" id=\"");
        reveal_strlit("</div>");
    }
    let mut boxes: Vec<(Vec<char>, Vec<char>)> = Vec::new();
    let mut si: usize = 0;
    while si <= h.len()
        invariant
            si <= h.len() + 1,
            tag@ == help_box_tag(),
            tag@.len() == 26,
            quote@ == seq!['"'],
            gt@ == seq!['>'],
            div_end@ == "</div>"@,
            div_end@.len() == 6,
            box_views(boxes@) + help_boxes_from(h@, si as int) == help_boxes(h@),
        decreases h.len() + 1 - si,
    {
        let ghost bv = box_views(boxes@);
        match find_chars_from(h, &tag, si) {
            None => {
                assert(help_boxes_from(h@, si as int) == Seq::<(Seq<char>, Seq<char>)>::empty());
                assert(bv + Seq::<(Seq<char>, Seq<char>)>::empty() == bv);
                return boxes;
            },
            Some(ds) => {
                proof {
                    lemma_find_from(h@, tag@, si as int);
                }
                let sp = ds + 26;
                if let Some(ie) = find_chars_from(h, &quote, sp) {
                    proof {
                        lemma_find_from(h@, quote@, sp as int);
                    }
                    if let Some(te) = find_chars_from(h, &gt, ie) {
                        proof {
                            lemma_find_from(h@, gt@, ie as int);
                        }
                        if let Some(de) = find_chars_from(h, &div_end, te + 1) {
                            proof {
                                lemma_find_from(h@, div_end@, te + 1);
                            }
                            let id = slice_of(h, sp, ie);
                            let inner = slice_of(h, te + 1, de);
                            let ghost entry = (id@, inner@);
                            boxes.push((id, inner));
                            assert(box_views(boxes@) == bv.push(entry));
                            assert(bv.push(entry) + help_boxes_from(h@, de + 6) == bv + (seq![entry] + help_boxes_from(h@, de + 6)));
                            si = de + 6;
                            continue;
                        }
                    }
                }
                si = sp;
            },
        }
    }
    assert(help_boxes_from(h@, si as int) == Seq::<(Seq<char>, Seq<char>)>::empty());
    assert(box_views(boxes@) + Seq::<(Seq<char>, Seq<char>)>::empty() == box_views(boxes@));
    boxes
}

fn lookup_help(boxes: &Vec<(Vec<char>, Vec<char>)>, id: &Vec<char>) -> (r: Option<usize>)
    ensures
        match r {
            Some(k) => k < boxes.len() && lookup_box(box_views(boxes@), id@) == Some(boxes@[k as int].1@),
            None => lookup_box(box_views(boxes@), id@) is None,
        },
{
    let mut k: usize = 0;
    assert(box_views(boxes@).skip(0) == box_views(boxes@));
    while k < boxes.len()
        invariant
            k <= boxes.len(),
            lookup_box(box_views(boxes@), id@) == lookup_box(box_views(boxes@).skip(k as int), id@),
        decreases boxes.len() - k,
    {
        if chars_eq(&boxes[k].0, id) {
            return Some(k);
        }
        assert(box_views(boxes@).skip(k as int).drop_first() == box_views(boxes@).skip(k + 1));
        k += 1;
    }
    None
}

fn assemble_matches(
    spans: &Vec<(usize, usize, Vec<char>)>,
    boxes: &Vec<(Vec<char>, Vec<char>)>,
    fc: &Option<Vec<char>>,
) -> (r: Vec<Match>)
    requires
        forall|k: int| 0 <= k < spans.len() ==> (#[trigger] spans@[k]).0 <= spans@[k].1,
    ensures
        match_views(r@) == assemble(span_views(spans@), box_views(boxes@), opt_chars_view(*fc)),
{
    let unknown_prefix = to_chars("unknown-");
    let mut matches: Vec<Match> = Vec::new();
    let mut k: usize = 0;
    assert(span_views(spans@).take(0) == Seq::<SpanView>::empty());
    while k < spans.len()
        invariant
            k <= spans.len(),
            unknown_prefix@ == "unknown-"@,
            forall|j: int| 0 <= j < spans.len() ==> (#[trigger] spans@[j]).0 <= spans@[j].1,
            match_views(matches@) == assemble(span_views(spans@).take(k as int), box_views(boxes@), opt_chars_view(*fc)),
        decreases spans.len() - k,
    {
        let ghost prefix = span_views(spans@).take(k + 1);
        assert(prefix.drop_last() == span_views(spans@).take(k as int));
        assert(prefix.last() == span_views(spans@)[k as int]);
        let st = spans[k].0;
        let en = spans[k].1;
        let id = &spans[k].2;
        let help: Option<String> = if starts_with_chars(id, &unknown_prefix) {
            Some(owned("Unknown option / argument (no explanation available in explainshell)"))
        } else {
            match lookup_help(boxes, id) {
                Some(b) => Some(to_string(&boxes[b].1)),
                None => None,
            }
        };
        match help {
            Some(ht) => {
                let mut source = String::new();
                match fc {
                    Some(f) => {
                        let a = if st < f.len() { st } else { f.len() };
                        let b = if en < f.len() { en } else { f.len() };
                        push_range(&mut source, f, a, b);
                    },
                    None => {
                        push_chars(&mut source, id);
                    },
                }
                let ghost mv = match_views(matches@);
                let m = Match { index: matches.len(), source, explanation: ht, start: st, end: en };
                matches.push(m);
                assert(match_views(matches@) == mv.push(m@));
            },
            None => {},
        }
        k += 1;
    }
    assert(span_views(spans@).take(spans.len() as int) == span_views(spans@));
    matches
}

fn list_boxes(boxes: &Vec<(Vec<char>, Vec<char>)>) -> (r: Vec<Match>)
    ensures
        match_views(r@) == box_matches(box_views(boxes@)),
{
    let mut matches: Vec<Match> = Vec::new();
    let mut k: usize = 0;
    while k < boxes.len()
        invariant
            k <= boxes.len(),
            match_views(matches@) == box_matches(box_views(boxes@)).take(k as int),
        decreases boxes.len() - k,
    {
        let ghost mv = match_views(matches@);
        let m = Match {
            index: k,
            source: to_string(&boxes[k].0),
            explanation: to_string(&boxes[k].1),
            start: 0,
            end: 0,
        };
        matches.push(m);
        assert(match_views(matches@) == mv.push(m@));
        assert(box_matches(box_views(boxes@)).take(k + 1) == box_matches(box_views(boxes@)).take(k as int).push(m@));
        k += 1;
    }
    assert(box_matches(box_views(boxes@)).take(boxes.len() as int) == box_matches(box_views(boxes@)));
    matches
}

/// Parses an explainshell page into an explanation of `cmd`: its error when
/// the page is an error page; else the formatted command, and a match for
/// each span of it that has an explanation (or, where none has, one for
/// each help box).
pub fn parse_html(cmd: &str, html: &str) -> (e: Explanation)
    ensures
        e@ == parsed_html(cmd@, html@),
{
    let h = to_chars(html);
    if contains_str(&h, "missing man page") {
        let e = Explanation {
            command: owned(cmd),
            formatted_command: None,
            error: Some(owned("missing man page")),
            matches: Vec::new(),
        };
        assert(match_views(e.matches@) == Seq::<MatchView>::empty());
        return e;
    }
    if contains_str(&h, "parsing error") {
        let e = Explanation {
            command: owned(cmd),
            formatted_command: None,
            error: Some(owned("parsing error")),
            matches: Vec::new(),
        };
        assert(match_views(e.matches@) == Seq::<MatchView>::empty());
        return e;
    }
    let (fc, spans) = find_command_part(&h);
    let boxes = find_help_boxes(&h);
    let assembled = assemble_matches(&spans, &boxes, &fc);
    let matches = if assembled.len() > 0 {
        assembled
    } else {
        list_boxes(&boxes)
    };
    let formatted_command = match fc {
        Some(f) => Some(to_string(&f)),
        None => None,
    };
    Explanation { command: owned(cmd), formatted_command, error: None, matches }
}

// ---------------------------------------------------------------------------
// JSON rendering
// ---------------------------------------------------------------------------

/// A number, or `null`.
pub open spec fn number_or_null(o: Option<usize>) -> Seq<char> {
    match o {
        Some(i) => decimal(i as nat),
        None => "null"@,
    }
}

/// The fields after the command: the process id when it is positive, the
/// exit status when known, and the selection state.
pub open spec fn json_meta(
    active: Option<usize>,
    expanded: Option<usize>,
    scroll: usize,
    status: Option<i32>,
    pid: Option<u32>,
) -> Seq<char> {
    json_pid_status(status, pid) + ",\n  \"active_match_idx\": "@ + number_or_null(active) + ",\n  \"expanded_match_idx\": "@
        + number_or_null(expanded) + ",\n  \"expanded_scroll\": "@ + decimal(scroll as nat)
}

/// The JSON object of one match.
pub open spec fn match_block(m: MatchView) -> Seq<char> {
    "    {\n      \"index\": "@ + decimal(m.0 as nat) + ",\n      \"source\": \""@ + escaped(m.1)
        + "\",\n      \"explanation\": \""@ + escaped(m.2) + "\"\n    }"@
}

/// The JSON object of one match, in bold red when it is the active one.
pub open spec fn match_entry(m: MatchView, active: Option<usize>) -> Seq<char> {
    if Some(m.0) == active {
        "\x1b[31;1m"@ + match_block(m) + "\x1b[0m"@
    } else {
        match_block(m)
    }
}

/// The match objects, separated by a comma and a line feed.
pub open spec fn joined_entries(ms: Seq<MatchView>, active: Option<usize>) -> Seq<char>
    decreases ms.len(),
{
    if ms.len() == 0 {
        Seq::empty()
    } else if ms.len() == 1 {
        match_entry(ms[0], active)
    } else {
        joined_entries(ms.drop_last(), active) + ",\n"@ + match_entry(ms.last(), active)
    }
}

/// The JSON text of an explanation and the selection state.
pub open spec fn explanation_json(
    e: ExplanationView,
    active: Option<usize>,
    expanded: Option<usize>,
    scroll: usize,
    status: Option<i32>,
    pid: Option<u32>,
) -> Seq<char> {
    let head = "{\n  \"command\": \""@ + escaped(e.0) + "\""@ + json_meta(active, expanded, scroll, status, pid);
    match e.2 {
        Some(err) => head + ",\n  \"error\": \""@ + escaped(err) + "\"\n}"@,
        None => head + ",\n  \"matches\": [\n"@ + joined_entries(e.3, active) + "\n  ]\n}"@,
    }
}

fn push_number_or_null(out: &mut String, o: Option<usize>)
    ensures
        final(out)@ == old(out)@ + number_or_null(o),
{
    match o {
        Some(i) => {
            assert((i as u64) as nat == i as nat);
            push_decimal(out, i as u64);
        },
        None => push_str(out, "null"),
    }
}

/// The process id and status fields.
pub open spec fn json_pid_status(status: Option<i32>, pid: Option<u32>) -> Seq<char> {
    (match pid {
        Some(p) => if p > 0 {
            ",\n  \"pid\": "@ + decimal(p as nat)
        } else {
            Seq::empty()
        },
        None => Seq::empty(),
    }) + (match status {
        Some(c) => ",\n  \"status\": "@ + signed_decimal(c as int),
        None => Seq::empty(),
    })
}

fn push_pid(out: &mut String, pid: Option<u32>)
    ensures
        final(out)@ == old(out)@ + (match pid {
            Some(p) => if p > 0 {
                ",\n  \"pid\": "@ + decimal(p as nat)
            } else {
                Seq::empty()
            },
            None => Seq::empty(),
        }),
{
    match pid {
        Some(p) => {
            if p > 0 {
                push_str(out, ",\n  \"pid\": ");
                push_decimal(out, p as u64);
            } else {
                assert(out@ == old(out)@ + Seq::<char>::empty());
            }
        },
        None => {
            assert(out@ == old(out)@ + Seq::<char>::empty());
        },
    }
}

fn push_status(out: &mut String, status: Option<i32>)
    ensures
        final(out)@ == old(out)@ + (match status {
            Some(c) => ",\n  \"status\": "@ + signed_decimal(c as int),
            None => Seq::empty(),
        }),
{
    match status {
        Some(c) => {
            push_str(out, ",\n  \"status\": ");
            push_signed_decimal(out, c as i64);
        },
        None => {
            assert(out@ == old(out)@ + Seq::<char>::empty());
        },
    }
}

fn push_json_meta(
    out: &mut String,
    active: Option<usize>,
    expanded: Option<usize>,
    scroll: usize,
    status: Option<i32>,
    pid: Option<u32>,
)
    ensures
        final(out)@ == old(out)@ + json_meta(active, expanded, scroll, status, pid),
{
    let ghost o0 = out@;
    push_pid(out, pid);
    push_status(out, status);
    let ghost o2 = out@;
    assert(o2 == o0 + json_pid_status(status, pid));
    push_str(out, ",\n  \"active_match_idx\": ");
    push_number_or_null(out, active);
    push_str(out, ",\n  \"expanded_match_idx\": ");
    push_number_or_null(out, expanded);
    push_str(out, ",\n  \"expanded_scroll\": ");
    assert((scroll as u64) as nat == scroll as nat);
    push_decimal(out, scroll as u64);
}

fn push_match_block(out: &mut String, m: &Match)
    ensures
        final(out)@ == old(out)@ + match_block(m@),
{
    push_str(out, "    {\n      \"index\": ");
    assert((m.index as u64) as nat == m.index as nat);
    push_decimal(out, m.index as u64);
    push_str(out, ",\n      \"source\": \"");
    let src = to_chars(m.source.as_str());
    push_escaped(out, &src);
    push_str(out, "\",\n      \"explanation\": \"");
    let ex = to_chars(m.explanation.as_str());
    push_escaped(out, &ex);
    push_str(out, "\"\n    }");
}

fn push_match_entry(out: &mut String, m: &Match, active: Option<usize>)
    ensures
        final(out)@ == old(out)@ + match_entry(m@, active),
{
    if Some(m.index) == active {
        let ghost o = out@;
        push_str(out, "\x1b[31;1m");
        push_match_block(out, m);
        push_str(out, "\x1b[0m");
        assert(out@ == o + ("\x1b[31;1m"@ + match_block(m@) + "\x1b[0m"@));
    } else {
        push_match_block(out, m);
    }
}

/// The JSON text that the explanation pane reads: the command, the process
/// id (when positive) and exit status (when known), the active and expanded
/// match indices (or `null`), the scroll offset, and then either the error
/// or the list of matches, the active one wrapped in bold-red escape codes.
pub fn explanation_to_json(
    exp: &Explanation,
    active_match_idx: Option<usize>,
    expanded_match_idx: Option<usize>,
    expanded_scroll: usize,
    status: Option<i32>,
    pid: Option<u32>,
) -> (r: String)
    ensures
        r@ == explanation_json(exp@, active_match_idx, expanded_match_idx, expanded_scroll, status, pid),
{
    let mut out = String::new();
    push_str(&mut out, "{\n  \"command\": \"");
    let cmd = to_chars(exp.command.as_str());
    push_escaped(&mut out, &cmd);
    push_str(&mut out, "\"");
    push_json_meta(&mut out, active_match_idx, expanded_match_idx, expanded_scroll, status, pid);
    let ghost head = out@;
    assert(head == "{\n  \"command\": \""@ + escaped(exp@.0) + "\""@ + json_meta(
        active_match_idx,
        expanded_match_idx,
        expanded_scroll,
        status,
        pid,
    ));
    match &exp.error {
        Some(err) => {
            push_str(&mut out, ",\n  \"error\": \"");
            let ev = to_chars(err.as_str());
            push_escaped(&mut out, &ev);
            push_str(&mut out, "\"\n}");
            return out;
        },
        None => {},
    }
    push_str(&mut out, ",\n  \"matches\": [\n");
    let ghost before = out@;
    let mut k: usize = 0;
    assert(match_views(exp.matches@).take(0) == Seq::<MatchView>::empty());
    while k < exp.matches.len()
        invariant
            k <= exp.matches.len(),
            out@ == before + joined_entries(match_views(exp.matches@).take(k as int), active_match_idx),
        decreases exp.matches.len() - k,
    {
        let ghost ms = match_views(exp.matches@).take(k + 1);
        assert(ms.drop_last() == match_views(exp.matches@).take(k as int));
        assert(ms.last() == exp.matches@[k as int]@);
        if k > 0 {
            push_str(&mut out, ",\n");
        }
        push_match_entry(&mut out, &exp.matches[k], active_match_idx);
        proof {
            if k == 0 {
                assert(ms.len() == 1);
                assert(ms[0] == ms.last());
            }
        }
        k += 1;
    }
    assert(match_views(exp.matches@).take(exp.matches.len() as int) == match_views(exp.matches@));
    push_str(&mut out, "\n  ]\n}");
    out
}

// ---------------------------------------------------------------------------
// Laws
// ---------------------------------------------------------------------------

/// The text holds no `<` and no `>`.
pub open spec fn no_angle(s: Seq<char>) -> bool {
    forall|k: int| 0 <= k < s.len() ==> #[trigger] s[k] != '<' && s[k] != '>'
}

proof fn lemma_scan_no_angle(s: Seq<char>)
    ensures
        no_angle(strip_scan(s).0),
    decreases s.len(),
{
    if s.len() > 0 {
        lemma_scan_no_angle(s.drop_last());
    }
}

pub proof fn lemma_part_no_angle(s: Seq<char>, a: int, b: int)
    requires
        no_angle(s),
        0 <= a <= b <= s.len(),
    ensures
        no_angle(s.subrange(a, b)),
{
    assert forall|k: int| 0 <= k < b - a implies #[trigger] s.subrange(a, b)[k] != '<' && s.subrange(a, b)[k] != '>' by {
        assert(s.subrange(a, b)[k] == s[a + k]);
    }
}

pub proof fn lemma_lines_no_angle(s: Seq<char>, i: int)
    requires
        no_angle(s),
    ensures
        forall|k: int| 0 <= k < lines_from(s, i).len() ==> no_angle(#[trigger] lines_from(s, i)[k]),
    decreases s.len() - i,
{
    if i < 0 || i >= s.len() {
    } else {
        let e = line_end(s, i);
        lemma_line_end(s, i);
        if e < s.len() {
            lemma_lines_no_angle(s, e + 1);
            lemma_part_no_angle(s, i, e);
            let l = s.subrange(i, e);
            if l.len() > 0 && l.last() == '\r' {
                lemma_part_no_angle(l, 0, l.len() - 1);
                assert(l.drop_last() == l.subrange(0, l.len() - 1));
            }
            let ls = lines_from(s, i);
            assert(ls == seq![strip_cr(l)] + lines_from(s, e + 1));
            assert forall|k: int| 0 <= k < ls.len() implies no_angle(#[trigger] ls[k]) by {
                if k > 0 {
                    assert(ls[k] == lines_from(s, e + 1)[k - 1]);
                }
            }
        } else {
            lemma_part_no_angle(s, i, e);
        }
    }
}

pub proof fn lemma_trim_no_angle(s: Seq<char>)
    requires
        no_angle(s),
    ensures
        no_angle(trim(s)),
{
    lemma_trim(s);
    let (a, b) = choose|a: int, b: int| 0 <= a <= b <= s.len() && trim(s) == #[trigger] s.subrange(a, b);
    lemma_part_no_angle(s, a, b);
}

proof fn lemma_collapse_no_angle(ls: Seq<Seq<char>>)
    requires
        forall|k: int| 0 <= k < ls.len() ==> no_angle(#[trigger] ls[k]),
    ensures
        no_angle(collapse_lines(ls)),
    decreases ls.len(),
{
    if ls.len() > 0 {
        let prev = ls.drop_last();
        assert forall|k: int| 0 <= k < prev.len() implies no_angle(#[trigger] prev[k]) by {
            assert(prev[k] == ls[k]);
        }
        lemma_collapse_no_angle(prev);
        assert(no_angle(ls[ls.len() - 1]));
        lemma_trim_no_angle(ls.last());
        let c = collapse_lines(prev);
        let t = trim(ls.last());
        if t.len() > 0 {
            let r = c + t + seq!['\n'];
            assert forall|k: int| 0 <= k < r.len() implies #[trigger] r[k] != '<' && r[k] != '>' by {
                if k < c.len() {
                } else if k < c.len() + t.len() {
                    assert(r[k] == t[k - c.len()]);
                }
            }
        }
    }
}

/// The text of a page holds no tag: no `<` and no `>` is left in it.
pub proof fn law_stripped_html_has_no_tags(html: Seq<char>)
    ensures
        no_angle(stripped_html(html)),
{
    let out = strip_scan(tag_breaks(html)).0;
    lemma_scan_no_angle(tag_breaks(html));
    lemma_lines_no_angle(out, 0);
    lemma_collapse_no_angle(lines(out));
    lemma_trim_no_angle(collapse_lines(lines(out)));
}

/// The text of a page has no white space at either end.
pub proof fn law_stripped_html_is_trimmed(html: Seq<char>)
    ensures
        stripped_html(html).len() > 0 ==> !is_ws(stripped_html(html)[0]) && !is_ws(stripped_html(html).last()),
{
    lemma_trim(collapse_lines(lines(strip_scan(tag_breaks(html)).0)));
}

proof fn lemma_assemble_numbered(spans: Seq<SpanView>, boxes: Seq<(Seq<char>, Seq<char>)>, fc: Option<Seq<char>>)
    ensures
        forall|k: int| 0 <= k < assemble(spans, boxes, fc).len() ==> (#[trigger] assemble(spans, boxes, fc)[k]).0 == k as usize,
    decreases spans.len(),
{
    if spans.len() > 0 {
        lemma_assemble_numbered(spans.drop_last(), boxes, fc);
        let prev = assemble(spans.drop_last(), boxes, fc);
        let a = assemble(spans, boxes, fc);
        assert forall|k: int| 0 <= k < a.len() implies (#[trigger] a[k]).0 == k as usize by {
            if k < prev.len() {
                assert(a[k] == prev[k]);
            }
        }
    }
}

/// A parsed page names its command, and numbers its matches 0, 1, 2, ... in
/// order; an error page has neither a formatted command nor matches.
pub proof fn law_matches_numbered(cmd: Seq<char>, html: Seq<char>)
    ensures
        parsed_html(cmd, html).0 == cmd,
        forall|k: int| 0 <= k < parsed_html(cmd, html).3.len() ==> (#[trigger] parsed_html(cmd, html).3[k]).0 == k as usize,
        parsed_html(cmd, html).2 is Some ==> parsed_html(cmd, html).1 is None && parsed_html(cmd, html).3.len() == 0,
{
    let cp = command_part(html);
    lemma_assemble_numbered(cp.1, help_boxes(html), cp.0);
}

/// A JSON-escaped text holds no line feed, carriage return or tab, so each
/// string stays on its line.
pub proof fn law_escaped_is_one_line(s: Seq<char>)
    ensures
        forall|k: int| 0 <= k < escaped(s).len() ==> #[trigger] escaped(s)[k] != '\n' && escaped(s)[k] != '\r' && escaped(s)[k] != '\t',
    decreases s.len(),
{
    if s.len() > 0 {
        law_escaped_is_one_line(s.drop_first());
        let e = escaped(s);
        let h = escape_char(s[0]);
        let r = escaped(s.drop_first());
        assert(e == h + r);
        assert forall|k: int| 0 <= k < e.len() implies #[trigger] e[k] != '\n' && e[k] != '\r' && e[k] != '\t' by {
            if k >= h.len() {
                assert(e[k] == r[k - h.len()]);
            }
        }
    }
}

/// A character that may stand in an encoded query parameter.
pub open spec fn url_safe(c: char) -> bool {
    ||| ('A' <= c && c <= 'Z')
    ||| ('a' <= c && c <= 'z')
    ||| ('0' <= c && c <= '9')
    ||| c == '-' || c == '_' || c == '.' || c == '~' || c == '+' || c == '%'
}

/// An encoded query parameter holds only letters, digits, `-_.~`, `+` and
/// `%`: no space, `&`, `=`, `#` or other character that would end it.
pub proof fn law_url_encoded_is_safe(bytes: Seq<u8>)
    ensures
        forall|k: int| 0 <= k < url_encoded(bytes).len() ==> url_safe(#[trigger] url_encoded(bytes)[k]),
    decreases bytes.len(),
{
    if bytes.len() > 0 {
        law_url_encoded_is_safe(bytes.drop_last());
        let p = url_encoded(bytes.drop_last());
        let b = bytes.last();
        let t = url_encode_byte(b);
        assert forall|k: int| 0 <= k < t.len() implies url_safe(#[trigger] t[k]) by {
            if url_unreserved(b) {
            } else if b == 32 {
            } else {
                assert(b / 16 < 16);
                assert(b % 16 < 16);
            }
        }
        let e = p + t;
        assert forall|k: int| 0 <= k < e.len() implies url_safe(#[trigger] e[k]) by {
            if k >= p.len() {
                assert(e[k] == t[k - p.len()]);
            }
        }
    }
}

/// The value of an upper-case hexadecimal digit, or -1.
pub open spec fn hex_value(c: char) -> int {
    if '0' <= c && c <= '9' {
        c as int - 48
    } else if 'A' <= c && c <= 'F' {
        c as int - 55
    } else {
        -1
    }
}

/// How a server reads a query parameter: `+` is a space, `%` and two
/// hexadecimal digits are the byte they spell, any other character is its
/// own code.
pub open spec fn url_decoded(s: Seq<char>) -> Seq<int>
    decreases s.len(),
{
    if s.len() == 0 {
        Seq::empty()
    } else if s[0] == '+' {
        seq![32int] + url_decoded(s.drop_first())
    } else if s[0] == '%' && s.len() >= 3 {
        seq![hex_value(s[1]) * 16 + hex_value(s[2])] + url_decoded(s.skip(3))
    } else {
        seq![s[0] as int] + url_decoded(s.drop_first())
    }
}

proof fn lemma_decode_one(b: u8, t: Seq<char>)
    ensures
        url_decoded(url_encode_byte(b) + t) == seq![b as int] + url_decoded(t),
{
    let e = url_encode_byte(b);
    let s = e + t;
    if url_unreserved(b) {
        let c = (b as u32) as char;
        assert(c as int == b as int);
        assert(s[0] == c);
        assert(s.drop_first() =~= t);
    } else if b == 32 {
        assert(s[0] == '+');
        assert(s.drop_first() =~= t);
    } else {
        let hi = (b / 16) as nat;
        let lo = (b % 16) as nat;
        assert(hex_value(hex_upper(hi)) == hi) by {
            if hi >= 10 {
                assert(((55 + hi) as u32) as char as int == 55 + hi);
            } else {
                assert(digit_char(hi) as int == 48 + hi);
            }
        }
        assert(hex_value(hex_upper(lo)) == lo) by {
            if lo >= 10 {
                assert(((55 + lo) as u32) as char as int == 55 + lo);
            } else {
                assert(digit_char(lo) as int == 48 + lo);
            }
        }
        assert(s[0] == '%');
        assert(s[1] == hex_upper(hi));
        assert(s[2] == hex_upper(lo));
        assert(s.skip(3) =~= t);
        assert(hi * 16 + lo == b);
    }
}

proof fn lemma_decode_encoded(bytes: Seq<u8>, t: Seq<char>)
    ensures
        url_decoded(url_encoded(bytes) + t) == Seq::new(bytes.len(), |i: int| bytes[i] as int) + url_decoded(t),
    decreases bytes.len(),
{
    if bytes.len() == 0 {
        assert(url_encoded(bytes) + t =~= t);
        assert(Seq::new(bytes.len(), |i: int| bytes[i] as int) + url_decoded(t) =~= url_decoded(t));
    } else {
        let p = bytes.drop_last();
        let b = bytes.last();
        lemma_decode_one(b, t);
        lemma_decode_encoded(p, url_encode_byte(b) + t);
        assert(url_encoded(bytes) + t =~= url_encoded(p) + (url_encode_byte(b) + t));
        assert(Seq::new(p.len(), |i: int| p[i] as int) + (seq![b as int] + url_decoded(t)) =~= Seq::new(
            bytes.len(),
            |i: int| bytes[i] as int,
        ) + url_decoded(t));
    }
}

/// Reading back an encoded query parameter gives the bytes that were
/// encoded: each escaped byte is written as `%` and its two upper-case
/// hexadecimal digits, a space as `+`, and every other byte as itself.
pub proof fn law_url_encoded_reads_back(bytes: Seq<u8>)
    ensures
        url_decoded(url_encoded(bytes)) == Seq::new(bytes.len(), |i: int| bytes[i] as int),
{
    lemma_decode_encoded(bytes, Seq::empty());
    assert(url_encoded(bytes) + Seq::<char>::empty() =~= url_encoded(bytes));
    assert(url_decoded(Seq::<char>::empty()) =~= Seq::<int>::empty());
    assert(Seq::new(bytes.len(), |i: int| bytes[i] as int) + Seq::<int>::empty() =~= Seq::new(
        bytes.len(),
        |i: int| bytes[i] as int,
    ));
}

/// Command text with no tag, entity or white space in it.
pub open spec fn plain_command_text(a: Seq<char>) -> bool {
    forall|k: int| 0 <= k < a.len() ==> #[trigger] a[k] != '<' && a[k] != '&' && !is_ws(a[k])
}

proof fn lemma_not_at(h: Seq<char>, p: Seq<char>, i: int)
    requires
        0 <= i < h.len(),
        p.len() > 0,
        h[i] != p[0],
    ensures
        !occurs_at(h, p, i),
{
    if occurs_at(h, p, i) {
        assert(h.subrange(i, i + p.len())[0] == h[i]);
    }
}

proof fn lemma_scan_plain(
    h: Seq<char>,
    i: int,
    a: Seq<char>,
    f: Seq<char>,
    spans: Seq<SpanView>,
    active: Option<Seq<char>>,
    astart: int,
)
    requires
        0 <= i,
        i + a.len() <= h.len(),
        h.subrange(i, i + a.len()) == a,
        plain_command_text(a),
    ensures
        command_scan(h, i, f, spans, active, astart) == command_scan(h, i + a.len(), f + a, spans, active, astart),
    decreases a.len(),
{
    reveal_strlit("<ul class=\"dropdown-menu\"");
    reveal_strlit("<span");
    reveal_strlit("</span");
    reveal_strlit("&amp;");
    reveal_strlit("&lt;");
    reveal_strlit("&gt;");
    reveal_strlit("&quot;");
    reveal_strlit("&#39;");
    if a.len() == 0 {
        assert(f + a =~= f);
    } else {
        let c = a[0];
        assert(h[i] == h.subrange(i, i + a.len())[0]);
        assert(h[i] == c);
        lemma_not_at(h, "<ul class=\"dropdown-menu\""@, i);
        lemma_not_at(h, "<span"@, i);
        lemma_not_at(h, "</span"@, i);
        lemma_not_at(h, "&amp;"@, i);
        lemma_not_at(h, "&lt;"@, i);
        lemma_not_at(h, "&gt;"@, i);
        lemma_not_at(h, "&quot;"@, i);
        lemma_not_at(h, "&#39;"@, i);
        assert(push_text(f, c) == f.push(c));
        let r = a.drop_first();
        assert(h.subrange(i + 1, i + 1 + r.len()) =~= r);
        assert(plain_command_text(r)) by {
            assert forall|k: int| 0 <= k < r.len() implies #[trigger] r[k] != '<' && r[k] != '&' && !is_ws(r[k]) by {
                assert(r[k] == a[k + 1]);
            }
        }
        lemma_scan_plain(h, i + 1, r, f.push(c), spans, active, astart);
        assert(f.push(c) + r =~= f + a);
    }
}

proof fn lemma_around_entity(a: Seq<char>, e: Seq<char>, c: char, b: Seq<char>)
    requires
        plain_command_text(a),
        plain_command_text(b),
        !is_ws(c),
        command_scan(a + e + b, a.len() as int, a, Seq::empty(), None, 0) == command_scan(
            a + e + b,
            a.len() + e.len() as int,
            a.push(c),
            Seq::empty(),
            None,
            0,
        ),
    ensures
        command_div(a + e + b).0 == a + seq![c] + b,
{
    let h = a + e + b;
    assert(h.subrange(0, a.len() as int) =~= a);
    lemma_scan_plain(h, 0, a, Seq::empty(), Seq::empty(), None, 0);
    assert(Seq::<char>::empty() + a =~= a);
    let j: int = a.len() + e.len() as int;
    assert(h.subrange(j, j + b.len()) =~= b);
    lemma_scan_plain(h, j, b, a.push(c), Seq::empty(), None, 0);
    let x = a.push(c) + b;
    assert(x =~= a + seq![c] + b);
    assert(command_scan(h, j + b.len(), x, Seq::empty(), None, 0) == (trim(x), Seq::<SpanView>::empty()));
    let k = a.len() as int;
    assert(x[k] == c);
    if x.len() > 0 && is_ws(x[0]) {
        if k == 0 {
        } else {
            assert(x[0] == a[0]);
        }
    }
    assert(crate::text::trim_start(x) == x);
    if is_ws(x.last()) {
        if b.len() > 0 {
            assert(x.last() == b[b.len() - 1]);
        } else {
            assert(x.last() == c);
        }
    }
    assert(crate::text::trim_end(x) == x);
}

/// In a command without tags or white space, each of the five entities
/// `&amp;` `&lt;` `&gt;` `&quot;` `&#39;` is shown as its own character, and
/// the text around it as it is.
pub proof fn law_command_entities(a: Seq<char>, b: Seq<char>)
    requires
        plain_command_text(a),
        plain_command_text(b),
    ensures
        command_div(a + "&amp;"@ + b).0 == a + seq!['&'] + b,
        command_div(a + "&lt;"@ + b).0 == a + seq!['<'] + b,
        command_div(a + "&gt;"@ + b).0 == a + seq!['>'] + b,
        command_div(a + "&quot;"@ + b).0 == a + seq!['"'] + b,
        command_div(a + "&#39;"@ + b).0 == a + seq!['\''] + b,
{
    reveal_strlit("<ul class=\"dropdown-menu\"");
    reveal_strlit("<span");
    reveal_strlit("</span");
    reveal_strlit("&amp;");
    reveal_strlit("&lt;");
    reveal_strlit("&gt;");
    reveal_strlit("&quot;");
    reveal_strlit("&#39;");
    let i = a.len() as int;
    let h1 = a + "&amp;"@ + b;
    assert(h1.subrange(i, i + 5) =~= "&amp;"@);
    assert(h1[i] == '&');
    lemma_not_at(h1, "<ul class=\"dropdown-menu\""@, i);
    lemma_not_at(h1, "<span"@, i);
    lemma_not_at(h1, "</span"@, i);
    lemma_around_entity(a, "&amp;"@, '&', b);
    let h2 = a + "&lt;"@ + b;
    assert(h2.subrange(i, i + 4) =~= "&lt;"@);
    assert(h2[i] == '&');
    assert(h2[i + 1] == 'l');
    lemma_not_at(h2, "<ul class=\"dropdown-menu\""@, i);
    lemma_not_at(h2, "<span"@, i);
    lemma_not_at(h2, "</span"@, i);
    assert(!occurs_at(h2, "&amp;"@, i)) by {
        if occurs_at(h2, "&amp;"@, i) {
            assert(h2.subrange(i, i + 5)[1] == h2[i + 1]);
        }
    }
    lemma_around_entity(a, "&lt;"@, '<', b);
    let h3 = a + "&gt;"@ + b;
    assert(h3.subrange(i, i + 4) =~= "&gt;"@);
    assert(h3[i] == '&');
    assert(h3[i + 1] == 'g');
    lemma_not_at(h3, "<ul class=\"dropdown-menu\""@, i);
    lemma_not_at(h3, "<span"@, i);
    lemma_not_at(h3, "</span"@, i);
    assert(!occurs_at(h3, "&amp;"@, i)) by {
        if occurs_at(h3, "&amp;"@, i) {
            assert(h3.subrange(i, i + 5)[1] == h3[i + 1]);
        }
    }
    assert(!occurs_at(h3, "&lt;"@, i)) by {
        if occurs_at(h3, "&lt;"@, i) {
            assert(h3.subrange(i, i + 4)[1] == h3[i + 1]);
        }
    }
    lemma_around_entity(a, "&gt;"@, '>', b);
    let h4 = a + "&quot;"@ + b;
    assert(h4.subrange(i, i + 6) =~= "&quot;"@);
    assert(h4[i] == '&');
    assert(h4[i + 1] == 'q');
    lemma_not_at(h4, "<ul class=\"dropdown-menu\""@, i);
    lemma_not_at(h4, "<span"@, i);
    lemma_not_at(h4, "</span"@, i);
    assert(!occurs_at(h4, "&amp;"@, i)) by {
        if occurs_at(h4, "&amp;"@, i) {
            assert(h4.subrange(i, i + 5)[1] == h4[i + 1]);
        }
    }
    assert(!occurs_at(h4, "&lt;"@, i)) by {
        if occurs_at(h4, "&lt;"@, i) {
            assert(h4.subrange(i, i + 4)[1] == h4[i + 1]);
        }
    }
    assert(!occurs_at(h4, "&gt;"@, i)) by {
        if occurs_at(h4, "&gt;"@, i) {
            assert(h4.subrange(i, i + 4)[1] == h4[i + 1]);
        }
    }
    lemma_around_entity(a, "&quot;"@, '"', b);
    let h5 = a + "&#39;"@ + b;
    assert(h5.subrange(i, i + 5) =~= "&#39;"@);
    assert(h5[i] == '&');
    assert(h5[i + 1] == '#');
    lemma_not_at(h5, "<ul class=\"dropdown-menu\""@, i);
    lemma_not_at(h5, "<span"@, i);
    lemma_not_at(h5, "</span"@, i);
    assert(!occurs_at(h5, "&amp;"@, i)) by {
        if occurs_at(h5, "&amp;"@, i) {
            assert(h5.subrange(i, i + 5)[1] == h5[i + 1]);
        }
    }
    assert(!occurs_at(h5, "&lt;"@, i)) by {
        if occurs_at(h5, "&lt;"@, i) {
            assert(h5.subrange(i, i + 4)[1] == h5[i + 1]);
        }
    }
    assert(!occurs_at(h5, "&gt;"@, i)) by {
        if occurs_at(h5, "&gt;"@, i) {
            assert(h5.subrange(i, i + 4)[1] == h5[i + 1]);
        }
    }
    assert(!occurs_at(h5, "&quot;"@, i)) by {
        if occurs_at(h5, "&quot;"@, i) {
            assert(h5.subrange(i, i + 6)[1] == h5[i + 1]);
        }
    }
    lemma_around_entity(a, "&#39;"@, '\'', b);
}

} // verus!
