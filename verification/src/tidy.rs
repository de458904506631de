//! The text that tag stripping leaves is tidy: single spaces and single line
//! feeds between other characters. Stripping such a text again changes
//! nothing.
use vstd::prelude::*;
use crate::explainshell::{collapse_lines, collapse_step, no_angle, strip_scan, strip_step, stripped_html, tag_breaks};
use crate::text::{ends_with, is_ws, lemma_line_end, lemma_trim, line_end, lines, lines_from, strip_cr, trim, trim_end, trim_start};

verus! {

// ---------------------------------------------------------------------------
// The scan's output
// ---------------------------------------------------------------------------

/// The white space of the scan's output: only spaces and line feeds, never
/// two spaces in a row, and nothing but other characters after a line
/// feed.
pub open spec fn scanned_shape(s: Seq<char>) -> bool {
    &&& forall|k: int| 0 <= k < s.len() && is_ws(#[trigger] s[k]) ==> s[k] == ' ' || s[k] == '\n'
    &&& forall|k: int| 0 <= k < s.len() - 1 && #[trigger] s[k] == ' ' ==> s[k + 1] != ' '
    &&& forall|k: int| 0 <= k < s.len() - 1 && #[trigger] s[k] == '\n' ==> !is_ws(s[k + 1])
}

/// What the scan keeps as it goes: the shape of its output, and that white
/// space at the end of the output was noted.
pub open spec fn scan_ok(st: (Seq<char>, bool, bool)) -> bool {
    &&& scanned_shape(st.0)
    &&& st.0.len() > 0 && is_ws(st.0.last()) ==> st.2
}

pub proof fn lemma_scan_shape(s: Seq<char>)
    ensures
        scan_ok(strip_scan(s)),
    decreases s.len(),
{
    if s.len() > 0 {
        lemma_scan_shape(s.drop_last());
        let st = strip_scan(s.drop_last());
        let c = s.last();
        let out = st.0;
        let r = strip_step(st, c);
        assert(r == strip_scan(s));
        let o = r.0;
        if o.len() == out.len() + 1 {
            assert(o =~= out.push(o.last()));
            assert forall|k: int| 0 <= k < o.len() && is_ws(#[trigger] o[k]) implies o[k] == ' ' || o[k] == '\n' by {
                if k < out.len() {
                    assert(o[k] == out[k]);
                }
            }
            assert forall|k: int| 0 <= k < o.len() - 1 && #[trigger] o[k] == ' ' implies o[k + 1] != ' ' by {
                assert(o[k] == out[k]);
                if k + 1 < out.len() {
                    assert(o[k + 1] == out[k + 1]);
                }
            }
            assert forall|k: int| 0 <= k < o.len() - 1 && #[trigger] o[k] == '\n' implies !is_ws(o[k + 1]) by {
                assert(o[k] == out[k]);
                if k + 1 < out.len() {
                    assert(o[k + 1] == out[k + 1]);
                }
            }
        }
    }
}

// ---------------------------------------------------------------------------
// Tidy texts
// ---------------------------------------------------------------------------

/// A tidy text: its white space is single spaces and single line feeds,
/// each between two other characters.
pub open spec fn tidy(t: Seq<char>) -> bool {
    forall|k: int|
        0 <= k < t.len() && is_ws(#[trigger] t[k]) ==> {
            &&& t[k] == ' ' || t[k] == '\n'
            &&& 0 < k < t.len() - 1
            &&& !is_ws(t[k - 1])
            &&& !is_ws(t[k + 1])
        }
}

/// The blank-line collapsing, taking the lines from the first on.
pub open spec fn collapse_on(acc: Seq<char>, ls: Seq<Seq<char>>) -> Seq<char>
    decreases ls.len(),
{
    if ls.len() == 0 {
        acc
    } else {
        collapse_on(collapse_step(acc, ls[0]), ls.drop_first())
    }
}

proof fn lemma_collapse_on(a: Seq<Seq<char>>, b: Seq<Seq<char>>)
    ensures
        collapse_on(collapse_lines(a), b) == collapse_lines(a + b),
    decreases b.len(),
{
    if b.len() > 0 {
        let a2 = a.push(b[0]);
        assert(a2.drop_last() =~= a);
        assert(collapse_lines(a2) == collapse_step(collapse_lines(a), b[0]));
        lemma_collapse_on(a2, b.drop_first());
        assert(a2 + b.drop_first() =~= a + b);
    } else {
        assert(a + b =~= a);
    }
}

/// The collapsing so far: nothing, or a tidy text and a line feed.
pub open spec fn collapsed_ok(acc: Seq<char>) -> bool {
    acc.len() == 0 || (acc.len() > 1 && acc.last() == '\n' && tidy(acc.drop_last()))
}

/// A part of the scan's output without line feeds, trimmed, is tidy.
proof fn lemma_trimmed_line_tidy(out: Seq<char>, i: int, e: int)
    requires
        scanned_shape(out),
        0 <= i <= e <= out.len(),
        forall|k: int| i <= k < e ==> #[trigger] out[k] != '\n',
    ensures
        tidy(trim(out.subrange(i, e))),
        forall|k: int| 0 <= k < trim(out.subrange(i, e)).len() ==> #[trigger] trim(out.subrange(i, e))[k] != '\n',
{
    let l = out.subrange(i, e);
    let t = trim(l);
    lemma_trim(l);
    let (a, b) = choose|a: int, b: int| 0 <= a <= b <= l.len() && t == #[trigger] l.subrange(a, b);
    assert forall|k: int| 0 <= k < t.len() implies #[trigger] t[k] == out[i + a + k] by {}
    assert forall|k: int| 0 <= k < t.len() implies #[trigger] t[k] != '\n' by {
        assert(t[k] == out[i + a + k]);
    }
    assert forall|k: int| 0 <= k < t.len() && is_ws(#[trigger] t[k]) implies {
        &&& t[k] == ' ' || t[k] == '\n'
        &&& 0 < k < t.len() - 1
        &&& !is_ws(t[k - 1])
        &&& !is_ws(t[k + 1])
    } by {
        let p = i + a + k;
        assert(t[k] == out[p]);
        assert(out[p] == ' ');
        assert(k != 0 && k != t.len() - 1);
        assert(t[k - 1] == out[p - 1]);
        assert(t[k + 1] == out[p + 1]);
        assert(out[p - 1] != '\n');
        assert(out[p + 1] != '\n');
        if is_ws(out[p - 1]) {
            assert(out[p - 1] == ' ');
        }
    }
}

/// Joining tidy texts with a line feed keeps them tidy.
proof fn lemma_tidy_join(x: Seq<char>, t: Seq<char>)
    requires
        tidy(x),
        tidy(t),
        x.len() > 0,
        t.len() > 0,
    ensures
        tidy(x + seq!['\n'] + t),
{
    let r = x + seq!['\n'] + t;
    let n = x.len() as int;
    if is_ws(x[n - 1]) {
        assert(n - 1 < n - 1);
    }
    if is_ws(t[0]) {
        assert(0 < 0int);
    }
    assert forall|k: int| 0 <= k < r.len() && is_ws(#[trigger] r[k]) implies {
        &&& r[k] == ' ' || r[k] == '\n'
        &&& 0 < k < r.len() - 1
        &&& !is_ws(r[k - 1])
        &&& !is_ws(r[k + 1])
    } by {
        if k < n {
            assert(r[k] == x[k]);
            assert(r[k - 1] == x[k - 1]);
            assert(r[k + 1] == x[k + 1]);
        } else if k == n {
            assert(r[k - 1] == x[n - 1]);
            assert(r[k + 1] == t[0]);
        } else {
            assert(r[k] == t[k - n - 1]);
            assert(r[k - 1] == t[k - n - 2]);
            assert(r[k + 1] == t[k - n]);
        }
    }
}

// ---------------------------------------------------------------------------
// The text that stripping leaves
// ---------------------------------------------------------------------------

proof fn lemma_line_body(s: Seq<char>, i: int)
    requires
        0 <= i <= s.len(),
    ensures
        forall|k: int| i <= k < line_end(s, i) ==> #[trigger] s[k] != '\n',
    decreases s.len() - i,
{
    if i < s.len() && s[i] != '\n' {
        lemma_line_body(s, i + 1);
    }
}

/// A text that starts with a character other than white space keeps it
/// when trimmed at its end.
proof fn lemma_trim_end_keeps_first(l: Seq<char>)
    requires
        l.len() > 0,
        !is_ws(l[0]),
    ensures
        trim_end(l).len() > 0,
    decreases l.len(),
{
    if is_ws(l.last()) {
        assert(l.len() > 1);
        assert(l.drop_last()[0] == l[0]);
        lemma_trim_end_keeps_first(l.drop_last());
    }
}

proof fn lemma_collapse_scanned(out: Seq<char>, i: int, acc: Seq<char>)
    requires
        scanned_shape(out),
        0 <= i <= out.len(),
        i == 0 ==> acc.len() == 0,
        i > 0 ==> out[i - 1] == '\n',
        collapsed_ok(acc),
    ensures
        collapsed_ok(collapse_on(acc, lines_from(out, i))),
    decreases out.len() - i,
{
    if i < out.len() {
        let e = line_end(out, i);
        lemma_line_end(out, i);
        lemma_line_body(out, i);
        let l = out.subrange(i, e);
        let ls = lines_from(out, i);
        if l.len() > 0 && l.last() == '\r' {
            assert(l.last() == out[e - 1]);
            assert(is_ws(out[e - 1]));
        }
        assert(strip_cr(l) == l);
        assert(ls[0] == l);
        let t = trim(l);
        lemma_trimmed_line_tidy(out, i, e);
        let acc2 = collapse_step(acc, l);
        if i > 0 {
            assert(!is_ws(out[i]));
            assert(l[0] == out[i]);
            lemma_trim_end_keeps_first(l);
            assert(trim_start(l) == l);
        }
        if t.len() > 0 {
            if acc.len() == 0 {
                assert(acc2 == acc + t + seq!['\n']);
                assert(acc2.drop_last() =~= t);
            } else {
                let x = acc.drop_last();
                lemma_tidy_join(x, t);
                assert(acc =~= x + seq!['\n']);
                assert(acc2.drop_last() =~= x + seq!['\n'] + t);
            }
        } else {
            assert(acc.len() == 0);
            assert(acc2 == acc);
        }
        assert(collapsed_ok(acc2));
        assert(ls.len() > 0);
        assert(collapse_on(acc, ls) == collapse_on(acc2, ls.drop_first()));
        if e == out.len() {
            assert(ls =~= seq![l]);
            assert(ls.drop_first() =~= Seq::<Seq<char>>::empty());
            assert(collapse_on(acc2, ls.drop_first()) == acc2);
        } else {
            assert(ls.drop_first() =~= lines_from(out, e + 1));
            lemma_collapse_scanned(out, e + 1, acc2);
        }
    } else {
        assert(lines_from(out, i) =~= Seq::<Seq<char>>::empty());
        assert(collapse_on(acc, lines_from(out, i)) == acc);
    }
}

/// The text of a page is tidy.
pub proof fn lemma_stripped_tidy(html: Seq<char>)
    ensures
        tidy(stripped_html(html)),
{
    let out = strip_scan(tag_breaks(html)).0;
    lemma_scan_shape(tag_breaks(html));
    let ls = lines(out);
    lemma_collapse_on(Seq::empty(), ls);
    assert(Seq::<Seq<char>>::empty() + ls =~= ls);
    lemma_collapse_scanned(out, 0, Seq::empty());
    let c = collapse_lines(ls);
    if c.len() > 0 {
        let x = c.drop_last();
        assert(c =~= x + seq!['\n']);
        if is_ws(x[0]) {
            assert(0 < 0int);
        }
        if is_ws(x.last()) {
            assert(x.len() - 1 < x.len() - 1);
        }
        assert(c[0] == x[0]);
        assert(trim_start(c) == c);
        assert(trim_end(c) == trim_end(x));
        assert(trim_end(x) == x);
    }
}

// ---------------------------------------------------------------------------
// Stripping a tidy text
// ---------------------------------------------------------------------------

proof fn lemma_no_tag_kept(s: Seq<char>, p: Seq<char>, to: Seq<char>)
    requires
        no_angle(s),
        p.len() > 0,
        p[0] == '<',
    ensures
        crate::text::replace(s, p, to) == s,
{
    assert forall|k: int| !#[trigger] crate::text::occurs_at(s, p, k) by {
        if crate::text::occurs_at(s, p, k) {
            assert(s.subrange(k, k + p.len())[0] == s[k]);
        }
    }
    crate::highlight::lemma_replace_unchanged(s, p, to);
}

proof fn lemma_breaks_kept(s: Seq<char>)
    requires
        no_angle(s),
    ensures
        tag_breaks(s) == s,
{
    reveal_strlit("</p>");
    reveal_strlit("<br>");
    reveal_strlit("<br/>");
    reveal_strlit("<br />");
    reveal_strlit("</li>");
    reveal_strlit("</td>");
    reveal_strlit("</tr>");
    lemma_no_tag_kept(s, "</p>"@, "\n\n"@);
    lemma_no_tag_kept(s, "<br>"@, "\n"@);
    lemma_no_tag_kept(s, "<br/>"@, "\n"@);
    lemma_no_tag_kept(s, "<br />"@, "\n"@);
    lemma_no_tag_kept(s, "</li>"@, "\n"@);
    lemma_no_tag_kept(s, "</td>"@, " "@);
    lemma_no_tag_kept(s, "</tr>"@, "\n"@);
}

proof fn lemma_scan_tidy(y: Seq<char>, n: int)
    requires
        tidy(y),
        no_angle(y),
        0 <= n <= y.len(),
    ensures
        strip_scan(y.take(n)) == (y.take(n), false, n > 0 && is_ws(y[n - 1])),
    decreases n,
{
    if n > 0 {
        lemma_scan_tidy(y, n - 1);
        assert(y.take(n).drop_last() =~= y.take(n - 1));
        assert(y.take(n).last() == y[n - 1]);
        let c = y[n - 1];
        assert(c != '<' && c != '>');
        if is_ws(c) {
            assert(n - 1 > 0);
            assert(!is_ws(y[n - 2]));
            assert(y.take(n - 1).last() == y[n - 2]);
        }
        assert(y.take(n - 1).push(c) =~= y.take(n));
    } else {
        assert(y.take(0) =~= Seq::<char>::empty());
    }
}

proof fn lemma_collapse_tidy(y: Seq<char>, i: int)
    requires
        tidy(y),
        0 <= i < y.len(),
        i > 0 ==> y[i - 1] == '\n',
    ensures
        collapse_on(y.take(i), lines_from(y, i)) == y + seq!['\n'],
    decreases y.len() - i,
{
    let e = line_end(y, i);
    lemma_line_end(y, i);
    lemma_line_body(y, i);
    let l = y.subrange(i, e);
    let ls = lines_from(y, i);
    if is_ws(y[i]) {
        assert(i > 0);
        assert(y[i] == '\n' || !is_ws(y[i]));
    }
    assert(y[i] != '\n');
    assert(e > i);
    assert(l[0] == y[i]);
    assert(l.last() == y[e - 1]);
    if is_ws(y[e - 1]) {
        assert(y[e - 1] == ' ' || y[e - 1] == '\n');
        assert(e - 1 < y.len() - 1);
        assert(y[e] == '\n');
    }
    assert(strip_cr(l) == l);
    assert(trim_start(l) == l);
    assert(trim_end(l) == l);
    assert(ls[0] == l);
    assert(ls.len() > 0);
    let acc2 = collapse_step(y.take(i), l);
    assert(acc2 == y.take(i) + l + seq!['\n']);
    assert(collapse_on(y.take(i), ls) == collapse_on(acc2, ls.drop_first()));
    if e == y.len() {
        assert(ls.drop_first() =~= Seq::<Seq<char>>::empty());
        assert(y.take(i) + l =~= y);
    } else {
        assert(y[e] == '\n');
        assert(e < y.len() - 1);
        assert(ls.drop_first() =~= lines_from(y, e + 1));
        assert(acc2 =~= y.take(e + 1));
        lemma_collapse_tidy(y, e + 1);
    }
}

/// A tidy text without angle brackets is left as it is by stripping.
pub proof fn lemma_strip_tidy(y: Seq<char>)
    requires
        tidy(y),
        no_angle(y),
    ensures
        stripped_html(y) == y,
{
    lemma_breaks_kept(y);
    lemma_scan_tidy(y, y.len() as int);
    assert(y.take(y.len() as int) =~= y);
    let ls = lines(y);
    lemma_collapse_on(Seq::empty(), ls);
    assert(Seq::<Seq<char>>::empty() + ls =~= ls);
    if y.len() > 0 {
        assert(y.take(0) =~= Seq::<char>::empty());
        lemma_collapse_tidy(y, 0);
        let c = y + seq!['\n'];
        if is_ws(y[0]) {
            assert(0 < 0int);
        }
        if is_ws(y.last()) {
            assert(y.len() - 1 < y.len() - 1);
        }
        assert(c[0] == y[0]);
        assert(trim_start(c) == c);
        assert(c.drop_last() =~= y);
        assert(trim_end(c) == trim_end(y));
    } else {
        assert(ls =~= Seq::<Seq<char>>::empty());
    }
}

/// Stripping the tags from the text of a page a second time changes
/// nothing.
pub proof fn law_stripped_html_idempotent(html: Seq<char>)
    ensures
        stripped_html(stripped_html(html)) == stripped_html(html),
{
    lemma_stripped_tidy(html);
    crate::explainshell::law_stripped_html_has_no_tags(html);
    lemma_strip_tidy(stripped_html(html));
}

} // verus!
