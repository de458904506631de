//! The codes that mark the active match in the JSON text, and what is left
//! of that text once the explanation pane has removed them.
use vstd::prelude::*;
use crate::exchange::{lemma_decimal_digits, lemma_occurs_shift};
use crate::explainshell::{
    escape_char, escaped, explanation_json, joined_entries, json_meta, json_pid_status, match_block, match_entry,
    number_or_null, ExplanationView, MatchView,
};
use crate::pane::without_highlight;
use crate::text::{decimal, is_digit, occurs_at, replace, replace_from, signed_decimal};

verus! {

/// The code that turns bold red on.
pub open spec fn mark_on() -> Seq<char> {
    seq!['\x1b', '[', '3', '1', ';', '1', 'm']
}

/// The code that resets the colour.
pub open spec fn mark_off() -> Seq<char> {
    seq!['\x1b', '[', '0', 'm']
}

pub proof fn lemma_mark_literals()
    ensures
        "\x1b[31;1m"@ == mark_on(),
        "\x1b[0m"@ == mark_off(),
        ""@ == Seq::<char>::empty(),
{
    reveal_strlit("\x1b[31;1m");
    reveal_strlit("\x1b[0m");
    reveal_strlit("");
    assert("\x1b[31;1m"@ =~= mark_on());
    assert("\x1b[0m"@ =~= mark_off());
    assert(""@ =~= Seq::<char>::empty());
}

// ---------------------------------------------------------------------------
// Replacing in pieces
// ---------------------------------------------------------------------------

/// Where the pattern occurs nowhere from `i` on, the rest is kept as it is.
pub proof fn lemma_replace_none(s: Seq<char>, p: Seq<char>, to: Seq<char>, i: int)
    requires
        0 <= i <= s.len(),
        p.len() > 0,
        forall|k: int| i <= k < s.len() ==> !#[trigger] occurs_at(s, p, k),
    ensures
        replace_from(s, p, to, i) == s.subrange(i, s.len() as int),
    decreases s.len() - i,
{
    if i < s.len() {
        lemma_replace_none(s, p, to, i + 1);
        assert(!occurs_at(s, p, i));
        assert(seq![s[i]] + s.subrange(i + 1, s.len() as int) =~= s.subrange(i, s.len() as int));
    } else {
        assert(s.subrange(i, s.len() as int) =~= Seq::<char>::empty());
    }
}

/// Replacing in the second part of a concatenation does not look at the
/// first.
pub proof fn lemma_replace_shift(a: Seq<char>, b: Seq<char>, p: Seq<char>, to: Seq<char>, j: int)
    requires
        0 <= j,
        p.len() > 0,
    ensures
        replace_from(a + b, p, to, a.len() + j) == replace_from(b, p, to, j),
    decreases b.len() - j,
{
    if j < b.len() {
        lemma_occurs_shift(a, b, p, j);
        assert((a + b)[a.len() + j] == b[j]);
        if occurs_at(b, p, j) {
            lemma_replace_shift(a, b, p, to, j + p.len());
            assert(a.len() + j + p.len() == a.len() + (j + p.len()));
        } else {
            lemma_replace_shift(a, b, p, to, j + 1);
            assert(a.len() + j + 1 == a.len() + (j + 1));
        }
    }
}

/// No occurrence of `p` starts in the last `p.len() - 1` characters of `a`
/// and runs on into `b`.
pub open spec fn no_straddle(a: Seq<char>, b: Seq<char>, p: Seq<char>) -> bool {
    forall|k: int| a.len() - p.len() < k < a.len() && 0 <= k ==> !#[trigger] occurs_at(a + b, p, k)
}

proof fn lemma_replace_concat_from(a: Seq<char>, b: Seq<char>, p: Seq<char>, to: Seq<char>, i: int)
    requires
        0 <= i <= a.len(),
        p.len() > 0,
        no_straddle(a, b, p),
    ensures
        replace_from(a + b, p, to, i) == replace_from(a, p, to, i) + replace(b, p, to),
    decreases a.len() - i,
{
    if i == a.len() {
        lemma_replace_shift(a, b, p, to, 0);
        assert(replace_from(a, p, to, i) =~= Seq::<char>::empty());
        assert(Seq::<char>::empty() + replace(b, p, to) =~= replace(b, p, to));
    } else {
        assert((a + b)[i] == a[i]);
        if i + p.len() <= a.len() {
            assert((a + b).subrange(i, i + p.len()) =~= a.subrange(i, i + p.len()));
        } else {
            assert(!occurs_at(a + b, p, i));
        }
        assert(occurs_at(a + b, p, i) == occurs_at(a, p, i));
        if occurs_at(a, p, i) {
            lemma_replace_concat_from(a, b, p, to, i + p.len());
            assert(to + (replace_from(a, p, to, i + p.len()) + replace(b, p, to)) =~= (to + replace_from(
                a,
                p,
                to,
                i + p.len(),
            )) + replace(b, p, to));
        } else {
            lemma_replace_concat_from(a, b, p, to, i + 1);
            assert(seq![a[i]] + (replace_from(a, p, to, i + 1) + replace(b, p, to)) =~= (seq![a[i]]
                + replace_from(a, p, to, i + 1)) + replace(b, p, to));
        }
    }
}

/// Replacing distributes over a concatenation that no occurrence straddles.
pub proof fn lemma_replace_concat(a: Seq<char>, b: Seq<char>, p: Seq<char>, to: Seq<char>)
    requires
        p.len() > 0,
        no_straddle(a, b, p),
    ensures
        replace(a + b, p, to) == replace(a, p, to) + replace(b, p, to),
{
    lemma_replace_concat_from(a, b, p, to, 0);
}

/// The pattern alone is replaced whole.
pub proof fn lemma_replace_self(p: Seq<char>, to: Seq<char>)
    requires
        p.len() > 0,
    ensures
        replace(p, p, to) == to,
{
    assert(p.subrange(0, p.len() as int) =~= p);
    assert(occurs_at(p, p, 0));
    assert(replace_from(p, p, to, p.len() as int) =~= Seq::<char>::empty());
    assert(to + Seq::<char>::empty() =~= to);
}

// ---------------------------------------------------------------------------
// Texts without escape characters, and texts without highlight codes
// ---------------------------------------------------------------------------

/// A text without the escape character that starts terminal codes.
pub open spec fn free_of_esc(t: Seq<char>) -> bool {
    forall|k: int| 0 <= k < t.len() ==> #[trigger] t[k] != '\x1b'
}

/// `p` occurs nowhere in `t`.
pub open spec fn no_occurrence(t: Seq<char>, p: Seq<char>) -> bool {
    forall|k: int| !#[trigger] occurs_at(t, p, k)
}

/// Neither highlight code occurs in `t`.
pub open spec fn unmarked(t: Seq<char>) -> bool {
    no_occurrence(t, mark_on()) && no_occurrence(t, mark_off())
}

/// `c` is none of the characters of `p`.
pub open spec fn outside(c: char, p: Seq<char>) -> bool {
    forall|i: int| 0 <= i < p.len() ==> #[trigger] p[i] != c
}

/// A character of the highlight codes.
pub open spec fn code_char(c: char) -> bool {
    c == '\x1b' || c == '[' || c == '0' || c == '1' || c == '3' || c == ';' || c == 'm'
}

pub proof fn lemma_marks()
    ensures
        mark_on().len() == 7,
        mark_off().len() == 4,
        mark_on()[0] == '\x1b',
        mark_off()[0] == '\x1b',
        outside('"', mark_on()),
        outside('"', mark_off()),
        outside(',', mark_on()),
        outside(',', mark_off()),
        outside('\n', mark_on()),
        outside('\n', mark_off()),
        forall|i: int| 0 <= i < mark_on().len() ==> code_char(#[trigger] mark_on()[i]),
        forall|i: int| 0 <= i < mark_off().len() ==> code_char(#[trigger] mark_off()[i]),
        no_occurrence(mark_off(), mark_on()),
{
    assert forall|k: int| !#[trigger] occurs_at(mark_off(), mark_on(), k) by {}
}

pub proof fn lemma_free_concat(a: Seq<char>, b: Seq<char>)
    requires
        free_of_esc(a),
        free_of_esc(b),
    ensures
        free_of_esc(a + b),
{
    assert forall|k: int| 0 <= k < (a + b).len() implies #[trigger] (a + b)[k] != '\x1b' by {
        if k >= a.len() {
            assert((a + b)[k] == b[k - a.len()]);
        }
    }
}

/// A pattern that starts with the escape character occurs only where the
/// text holds one.
pub proof fn lemma_occurs_esc(s: Seq<char>, p: Seq<char>, k: int)
    requires
        p.len() > 0,
        p[0] == '\x1b',
        occurs_at(s, p, k),
    ensures
        s[k] == '\x1b',
        forall|i: int| 0 <= i < p.len() ==> #[trigger] s[k + i] == p[i],
{
    assert(s.subrange(k, k + p.len())[0] == s[k]);
    assert forall|i: int| 0 <= i < p.len() implies #[trigger] s[k + i] == p[i] by {
        assert(s.subrange(k, k + p.len())[i] == s[k + i]);
    }
}

/// The end of `a` leaves no room for an occurrence of `p` that runs on past
/// it: each escape character there is followed, two places on, by a
/// character other than the third of `p`.
pub open spec fn safe_end(a: Seq<char>, p: Seq<char>) -> bool {
    forall|k: int|
        a.len() - p.len() < k < a.len() && 0 <= k && #[trigger] a[k] == '\x1b' ==> k + 2 < a.len() && a[k
            + 2] != p[2]
}

pub proof fn lemma_safe_end(a: Seq<char>, b: Seq<char>, p: Seq<char>)
    requires
        p.len() >= 3,
        p[0] == '\x1b',
        safe_end(a, p),
    ensures
        no_straddle(a, b, p),
{
    assert forall|k: int| a.len() - p.len() < k < a.len() && 0 <= k implies !#[trigger] occurs_at(a + b, p, k) by {
        if occurs_at(a + b, p, k) {
            lemma_occurs_esc(a + b, p, k);
            assert((a + b)[k] == a[k]);
            assert((a + b)[k + 2] == p[2]);
            assert((a + b)[k + 2] == a[k + 2]);
        }
    }
}

/// A safe end stays safe with more text in front.
pub proof fn lemma_safe_end_prefix(x: Seq<char>, e: Seq<char>, p: Seq<char>)
    requires
        e.len() + 1 >= p.len(),
        safe_end(e, p),
    ensures
        safe_end(x + e, p),
{
    let s = x + e;
    assert forall|k: int|
        s.len() - p.len() < k < s.len() && 0 <= k && #[trigger] s[k] == '\x1b' implies k + 2 < s.len() && s[k + 2]
        != p[2] by {
        let j = k - x.len();
        assert(s[k] == e[j]);
        assert(e[j] == '\x1b');
        assert(s[k + 2] == e[j + 2]);
    }
}

/// A text without escape characters ends safely.
pub proof fn lemma_free_safe_end(a: Seq<char>, p: Seq<char>)
    requires
        free_of_esc(a),
    ensures
        safe_end(a, p),
{
}

/// Nothing is replaced in a text where the pattern does not occur.
pub proof fn lemma_replace_unchanged(s: Seq<char>, p: Seq<char>, to: Seq<char>)
    requires
        p.len() > 0,
        no_occurrence(s, p),
    ensures
        replace(s, p, to) == s,
{
    lemma_replace_none(s, p, to, 0);
    assert(s.subrange(0, s.len() as int) =~= s);
}

/// A code occurs nowhere in a text without escape characters.
pub proof fn lemma_free_no_occ(s: Seq<char>, p: Seq<char>)
    requires
        free_of_esc(s),
        p.len() > 0,
        p[0] == '\x1b',
    ensures
        no_occurrence(s, p),
{
    assert forall|k: int| !#[trigger] occurs_at(s, p, k) by {
        if occurs_at(s, p, k) {
            lemma_occurs_esc(s, p, k);
        }
    }
}

/// No occurrence of a code starts in a text without escape characters.
pub proof fn lemma_free_no_straddle(a: Seq<char>, b: Seq<char>, p: Seq<char>)
    requires
        free_of_esc(a),
        p.len() >= 3,
        p[0] == '\x1b',
    ensures
        no_straddle(a, b, p),
{
    lemma_free_safe_end(a, p);
    lemma_safe_end(a, b, p);
}

/// No occurrence runs on into a text that starts with a character foreign
/// to the pattern.
pub proof fn lemma_stop(a: Seq<char>, b: Seq<char>, p: Seq<char>)
    requires
        b.len() > 0,
        outside(b[0], p),
    ensures
        no_straddle(a, b, p),
{
    assert forall|k: int| a.len() - p.len() < k < a.len() && 0 <= k implies !#[trigger] occurs_at(a + b, p, k) by {
        if occurs_at(a + b, p, k) {
            let i = a.len() - k;
            assert((a + b).subrange(k, k + p.len())[i] == (a + b)[a.len() as int]);
            assert((a + b)[a.len() as int] == b[0]);
            assert(p[i] != b[0]);
        }
    }
}

/// A pattern that occurs in neither part, nor across them, occurs nowhere in
/// a concatenation.
pub proof fn lemma_join(a: Seq<char>, b: Seq<char>, p: Seq<char>)
    requires
        p.len() > 0,
        no_occurrence(a, p),
        no_occurrence(b, p),
        no_straddle(a, b, p),
    ensures
        no_occurrence(a + b, p),
{
    assert forall|k: int| !#[trigger] occurs_at(a + b, p, k) by {
        if occurs_at(a + b, p, k) {
            if k >= a.len() {
                lemma_occurs_shift(a, b, p, k - a.len());
            } else if k + p.len() <= a.len() {
                assert((a + b).subrange(k, k + p.len()) =~= a.subrange(k, k + p.len()));
                assert(occurs_at(a, p, k));
            }
        }
    }
}

// ---------------------------------------------------------------------------
// Escaping leaves the codes out
// ---------------------------------------------------------------------------

proof fn lemma_escape_char_shape(c: char)
    ensures
        escape_char(c).len() == 1 ==> escape_char(c) == seq![c],
        escape_char(c).len() != 1 ==> escape_char(c).len() == 2 && !code_char(escape_char(c)[0]) && !code_char(
            escape_char(c)[1],
        ),
        escape_char(c).len() >= 1,
{
}

/// An escaped text that starts with code characters comes from a text that
/// starts with them.
proof fn lemma_escaped_prefix(u: Seq<char>, q: Seq<char>)
    requires
        q.len() <= escaped(u).len(),
        escaped(u).subrange(0, q.len() as int) == q,
        forall|i: int| 0 <= i < q.len() ==> code_char(#[trigger] q[i]),
    ensures
        q.len() <= u.len(),
        u.subrange(0, q.len() as int) == q,
    decreases q.len(),
{
    if q.len() > 0 {
        if u.len() == 0 {
            assert(escaped(u).len() == 0);
        }
        let h = escape_char(u[0]);
        let r = u.drop_first();
        lemma_escape_char_shape(u[0]);
        assert(escaped(u) == h + escaped(r));
        assert(escaped(u)[0] == q[0]) by {
            assert(escaped(u).subrange(0, q.len() as int)[0] == escaped(u)[0]);
        }
        assert(code_char(q[0]));
        assert(h[0] == escaped(u)[0]);
        assert(h.len() == 1);
        let q2 = q.drop_first();
        assert(escaped(r).subrange(0, q2.len() as int) =~= q2) by {
            assert forall|i: int| 0 <= i < q2.len() implies escaped(r).subrange(0, q2.len() as int)[i] == q2[i] by {
                assert(escaped(u)[i + 1] == escaped(r)[i]);
                assert(escaped(u).subrange(0, q.len() as int)[i + 1] == escaped(u)[i + 1]);
            }
        }
        assert forall|i: int| 0 <= i < q2.len() implies code_char(#[trigger] q2[i]) by {
            assert(q2[i] == q[i + 1]);
        }
        lemma_escaped_prefix(r, q2);
        assert(u.subrange(0, q.len() as int) =~= seq![u[0]] + r.subrange(0, q2.len() as int));
        assert(u[0] == q[0]);
        assert(seq![q[0]] + q2 =~= q);
    }
}

/// A code character of an escaped text starts the escape of a suffix of the
/// text.
proof fn lemma_escaped_align(t: Seq<char>, k: int) -> (i: int)
    requires
        0 <= k < escaped(t).len(),
        code_char(escaped(t)[k]),
    ensures
        0 <= i < t.len(),
        escaped(t).subrange(k, escaped(t).len() as int) == escaped(t.subrange(i, t.len() as int)),
    decreases t.len(),
{
    if t.len() == 0 {
        assert(escaped(t).len() == 0);
        0
    } else {
        let h = escape_char(t[0]);
        let r = t.drop_first();
        lemma_escape_char_shape(t[0]);
        assert(escaped(t) == h + escaped(r));
        if k < h.len() {
            assert(escaped(t)[k] == h[k]);
            assert(h.len() == 1);
            assert(escaped(t).subrange(k, escaped(t).len() as int) =~= escaped(t));
            assert(t.subrange(0, t.len() as int) =~= t);
            0
        } else {
            assert(escaped(t)[k] == escaped(r)[k - h.len()]);
            let i2 = lemma_escaped_align(r, k - h.len());
            assert(escaped(t).subrange(k, escaped(t).len() as int) =~= escaped(r).subrange(
                k - h.len(),
                escaped(r).len() as int,
            ));
            assert(r.subrange(i2, r.len() as int) =~= t.subrange(i2 + 1, t.len() as int));
            i2 + 1
        }
    }
}

proof fn lemma_escaped_no_occ(t: Seq<char>, p: Seq<char>)
    requires
        p.len() > 0,
        forall|i: int| 0 <= i < p.len() ==> code_char(#[trigger] p[i]),
        no_occurrence(t, p),
    ensures
        no_occurrence(escaped(t), p),
{
    let e = escaped(t);
    assert forall|k: int| !#[trigger] occurs_at(e, p, k) by {
        if occurs_at(e, p, k) {
            assert(e.subrange(k, k + p.len())[0] == e[k]);
            assert(code_char(p[0]));
            let i = lemma_escaped_align(t, k);
            let u = t.subrange(i, t.len() as int);
            assert(escaped(u).subrange(0, p.len() as int) =~= e.subrange(k, k + p.len()));
            lemma_escaped_prefix(u, p);
            assert(t.subrange(i, i + p.len()) =~= u.subrange(0, p.len() as int));
            assert(occurs_at(t, p, i));
        }
    }
}

/// Escaping a text adds no highlight code to it.
pub proof fn lemma_escaped_unmarked(t: Seq<char>)
    requires
        unmarked(t),
    ensures
        unmarked(escaped(t)),
{
    lemma_marks();
    lemma_escaped_no_occ(t, mark_on());
    lemma_escaped_no_occ(t, mark_off());
}

// ---------------------------------------------------------------------------
// The pieces of the JSON text
// ---------------------------------------------------------------------------

pub proof fn lemma_free_concat3(a: Seq<char>, b: Seq<char>, c: Seq<char>)
    requires
        free_of_esc(a),
        free_of_esc(b),
        free_of_esc(c),
    ensures
        free_of_esc(a + b + c),
{
    lemma_free_concat(a, b);
    lemma_free_concat(a + b, c);
}

pub proof fn lemma_decimal_free(n: nat)
    ensures
        free_of_esc(decimal(n)),
        decimal(n).len() > 0,
{
    lemma_decimal_digits(n);
    let d = decimal(n);
    assert forall|k: int| 0 <= k < d.len() implies #[trigger] d[k] != '\x1b' by {
        assert(is_digit(d[k]));
    }
}

pub proof fn lemma_signed_decimal_free(n: int)
    ensures
        free_of_esc(signed_decimal(n)),
{
    if n < 0 {
        lemma_decimal_free((-n) as nat);
        lemma_free_concat(seq!['-'], decimal((-n) as nat));
    } else {
        lemma_decimal_free(n as nat);
    }
}

pub proof fn lemma_number_or_null_free(o: Option<usize>)
    ensures
        free_of_esc(number_or_null(o)),
{
    reveal_strlit("null");
    match o {
        Some(i) => lemma_decimal_free(i as nat),
        None => {},
    }
}

/// The fields after the command hold no escape character.
pub proof fn lemma_meta_free(
    active: Option<usize>,
    expanded: Option<usize>,
    scroll: usize,
    status: Option<i32>,
    pid: Option<u32>,
)
    ensures
        free_of_esc(json_meta(active, expanded, scroll, status, pid)),
{
    reveal_strlit(",\n  \"pid\": ");
    reveal_strlit(",\n  \"status\": ");
    reveal_strlit(",\n  \"active_match_idx\": ");
    reveal_strlit(",\n  \"expanded_match_idx\": ");
    reveal_strlit(",\n  \"expanded_scroll\": ");
    let lp = ",\n  \"pid\": "@;
    let ls = ",\n  \"status\": "@;
    let la = ",\n  \"active_match_idx\": "@;
    let lx = ",\n  \"expanded_match_idx\": "@;
    let lc = ",\n  \"expanded_scroll\": "@;
    assert(free_of_esc(lp));
    assert(free_of_esc(ls));
    assert(free_of_esc(la));
    assert(free_of_esc(lx));
    assert(free_of_esc(lc));
    let pp = match pid {
        Some(p) => if p > 0 {
            lp + decimal(p as nat)
        } else {
            Seq::<char>::empty()
        },
        None => Seq::<char>::empty(),
    };
    let sp = match status {
        Some(c) => ls + signed_decimal(c as int),
        None => Seq::<char>::empty(),
    };
    match pid {
        Some(p) => {
            lemma_decimal_free(p as nat);
            lemma_free_concat(lp, decimal(p as nat));
        },
        None => {},
    }
    match status {
        Some(c) => {
            lemma_signed_decimal_free(c as int);
            lemma_free_concat(ls, signed_decimal(c as int));
        },
        None => {},
    }
    assert(json_pid_status(status, pid) == pp + sp);
    lemma_free_concat(pp, sp);
    let ps = pp + sp;
    let na = number_or_null(active);
    let nx = number_or_null(expanded);
    let dc = decimal(scroll as nat);
    lemma_number_or_null_free(active);
    lemma_number_or_null_free(expanded);
    lemma_decimal_free(scroll as nat);
    lemma_free_concat3(ps, la, na);
    lemma_free_concat3(ps + la + na, lx, nx);
    lemma_free_concat3(ps + la + na + lx + nx, lc, dc);
    assert(json_meta(active, expanded, scroll, status, pid) == ps + la + na + lx + nx + lc + dc);
}

/// Neither code occurs in a text of a match.
pub open spec fn match_unmarked(m: MatchView) -> bool {
    unmarked(m.1) && unmarked(m.2)
}

/// The end of a match object.
pub open spec fn block_tail() -> Seq<char> {
    "\"\n    }"@
}

/// A match object up to its end.
pub open spec fn block_head(m: MatchView) -> Seq<char> {
    "    {\n      \"index\": "@ + decimal(m.0 as nat) + ",\n      \"source\": \""@ + escaped(m.1)
        + "\",\n      \"explanation\": \""@ + escaped(m.2)
}

proof fn lemma_block_no_occ(m: MatchView, p: Seq<char>)
    requires
        p.len() >= 3,
        p[0] == '\x1b',
        outside('"', p),
        no_occurrence(escaped(m.1), p),
        no_occurrence(escaped(m.2), p),
    ensures
        no_occurrence(match_block(m), p),
{
    reveal_strlit("    {\n      \"index\": ");
    reveal_strlit(",\n      \"source\": \"");
    reveal_strlit("\",\n      \"explanation\": \"");
    reveal_strlit("\"\n    }");
    let l1 = "    {\n      \"index\": "@;
    let l2 = ",\n      \"source\": \""@;
    let l3 = "\",\n      \"explanation\": \""@;
    let l4 = "\"\n    }"@;
    assert(free_of_esc(l1));
    assert(free_of_esc(l2));
    assert(free_of_esc(l3));
    assert(free_of_esc(l4));
    let d = decimal(m.0 as nat);
    lemma_decimal_free(m.0 as nat);
    let e1 = escaped(m.1);
    let e2 = escaped(m.2);
    lemma_free_no_occ(l1, p);
    lemma_free_no_occ(l2, p);
    lemma_free_no_occ(l3, p);
    lemma_free_no_occ(l4, p);
    lemma_free_no_occ(d, p);
    let r6 = e2 + l4;
    lemma_stop(e2, l4, p);
    lemma_join(e2, l4, p);
    let r5 = l3 + r6;
    lemma_free_no_straddle(l3, r6, p);
    lemma_join(l3, r6, p);
    let r4 = e1 + r5;
    assert(r5[0] == '"');
    lemma_stop(e1, r5, p);
    lemma_join(e1, r5, p);
    let r3 = l2 + r4;
    lemma_free_no_straddle(l2, r4, p);
    lemma_join(l2, r4, p);
    let r2 = d + r3;
    lemma_free_no_straddle(d, r3, p);
    lemma_join(d, r3, p);
    let r1 = l1 + r2;
    lemma_free_no_straddle(l1, r2, p);
    lemma_join(l1, r2, p);
    assert(match_block(m) =~= r1);
}

pub proof fn lemma_block_unmarked(m: MatchView)
    requires
        match_unmarked(m),
    ensures
        no_occurrence(match_block(m), mark_on()),
        no_occurrence(match_block(m), mark_off()),
        match_block(m) == block_head(m) + block_tail(),
        free_of_esc(block_tail()),
        block_tail().len() == 7,
        safe_end(match_block(m), mark_on()),
        safe_end(match_block(m), mark_off()),
{
    lemma_marks();
    lemma_escaped_unmarked(m.1);
    lemma_escaped_unmarked(m.2);
    lemma_block_no_occ(m, mark_on());
    lemma_block_no_occ(m, mark_off());
    reveal_strlit("\"\n    }");
    assert(free_of_esc(block_tail()));
    assert(match_block(m) =~= block_head(m) + block_tail());
    lemma_free_safe_end(block_tail(), mark_on());
    lemma_free_safe_end(block_tail(), mark_off());
    lemma_safe_end_prefix(block_head(m), block_tail(), mark_on());
    lemma_safe_end_prefix(block_head(m), block_tail(), mark_off());
}

/// A match entry once the code that turns the highlight on is gone.
pub open spec fn half_entry(m: MatchView, active: Option<usize>) -> Seq<char> {
    if Some(m.0) == active {
        match_block(m) + mark_off()
    } else {
        match_block(m)
    }
}

/// The match entries once the codes that turn the highlight on are gone.
pub open spec fn half_joined(ms: Seq<MatchView>, active: Option<usize>) -> Seq<char>
    decreases ms.len(),
{
    if ms.len() == 0 {
        Seq::empty()
    } else if ms.len() == 1 {
        half_entry(ms[0], active)
    } else {
        half_joined(ms.drop_last(), active) + ",\n"@ + half_entry(ms.last(), active)
    }
}

pub proof fn lemma_replace_empty(p: Seq<char>, to: Seq<char>)
    ensures
        replace(Seq::<char>::empty(), p, to) == Seq::<char>::empty(),
{
    assert(replace(Seq::<char>::empty(), p, to) =~= Seq::<char>::empty());
}

proof fn lemma_entry_on(m: MatchView, active: Option<usize>)
    requires
        match_unmarked(m),
    ensures
        replace(match_entry(m, active), mark_on(), Seq::empty()) == half_entry(m, active),
{
    lemma_mark_literals();
    lemma_marks();
    lemma_block_unmarked(m);
    let b = match_block(m);
    let z = Seq::<char>::empty();
    if Some(m.0) == active {
        let e = mark_on() + b + mark_off();
        assert(match_entry(m, active) == e);
        assert(safe_end(mark_on(), mark_on()));
        lemma_safe_end(mark_on(), b + mark_off(), mark_on());
        assert(e == mark_on() + (b + mark_off()));
        lemma_replace_concat(mark_on(), b + mark_off(), mark_on(), z);
        lemma_replace_self(mark_on(), z);
        lemma_safe_end(b, mark_off(), mark_on());
        lemma_join(b, mark_off(), mark_on());
        lemma_replace_unchanged(b + mark_off(), mark_on(), z);
        assert(z + (b + mark_off()) =~= b + mark_off());
    } else {
        lemma_replace_unchanged(b, mark_on(), z);
    }
}

proof fn lemma_entry_off(m: MatchView, active: Option<usize>)
    requires
        match_unmarked(m),
    ensures
        replace(half_entry(m, active), mark_off(), Seq::empty()) == match_block(m),
{
    lemma_marks();
    lemma_block_unmarked(m);
    let b = match_block(m);
    let z = Seq::<char>::empty();
    lemma_replace_unchanged(b, mark_off(), z);
    if Some(m.0) == active {
        lemma_safe_end(b, mark_off(), mark_off());
        lemma_replace_concat(b, mark_off(), mark_off(), z);
        lemma_replace_self(mark_off(), z);
        assert(b + z =~= b);
    }
}

/// Replacing in a separator and what follows it.
proof fn lemma_replace_after_sep(e: Seq<char>, p: Seq<char>)
    requires
        p.len() >= 3,
        p[0] == '\x1b',
    ensures
        replace(",\n"@ + e, p, Seq::empty()) == ",\n"@ + replace(e, p, Seq::empty()),
{
    reveal_strlit(",\n");
    let sep = ",\n"@;
    let z = Seq::<char>::empty();
    assert(free_of_esc(sep));
    lemma_free_no_straddle(sep, e, p);
    lemma_replace_concat(sep, e, p, z);
    lemma_free_no_occ(sep, p);
    lemma_replace_unchanged(sep, p, z);
}

proof fn lemma_joined_on(ms: Seq<MatchView>, active: Option<usize>)
    requires
        forall|i: int| 0 <= i < ms.len() ==> match_unmarked(#[trigger] ms[i]),
    ensures
        replace(joined_entries(ms, active), mark_on(), Seq::empty()) == half_joined(ms, active),
    decreases ms.len(),
{
    let z = Seq::<char>::empty();
    lemma_marks();
    if ms.len() == 0 {
        lemma_replace_empty(mark_on(), z);
    } else if ms.len() == 1 {
        lemma_entry_on(ms[0], active);
    } else {
        reveal_strlit(",\n");
        let sep = ",\n"@;
        let ms1 = ms.drop_last();
        assert forall|i: int| 0 <= i < ms1.len() implies match_unmarked(#[trigger] ms1[i]) by {
            assert(ms1[i] == ms[i]);
        }
        lemma_joined_on(ms1, active);
        let j1 = joined_entries(ms1, active);
        let e = match_entry(ms.last(), active);
        lemma_entry_on(ms.last(), active);
        assert(joined_entries(ms, active) == j1 + sep + e);
        assert(j1 + sep + e == j1 + (sep + e));
        assert((sep + e)[0] == ',');
        lemma_stop(j1, sep + e, mark_on());
        lemma_replace_concat(j1, sep + e, mark_on(), z);
        lemma_replace_after_sep(e, mark_on());
        assert(half_joined(ms1, active) + (sep + half_entry(ms.last(), active)) =~= half_joined(ms, active));
    }
}

proof fn lemma_joined_off(ms: Seq<MatchView>, active: Option<usize>)
    requires
        forall|i: int| 0 <= i < ms.len() ==> match_unmarked(#[trigger] ms[i]),
    ensures
        replace(half_joined(ms, active), mark_off(), Seq::empty()) == joined_entries(ms, None),
    decreases ms.len(),
{
    let z = Seq::<char>::empty();
    lemma_marks();
    if ms.len() == 0 {
        lemma_replace_empty(mark_off(), z);
    } else if ms.len() == 1 {
        lemma_entry_off(ms[0], active);
        assert(match_entry(ms[0], None) == match_block(ms[0]));
    } else {
        reveal_strlit(",\n");
        let sep = ",\n"@;
        let ms1 = ms.drop_last();
        assert forall|i: int| 0 <= i < ms1.len() implies match_unmarked(#[trigger] ms1[i]) by {
            assert(ms1[i] == ms[i]);
        }
        lemma_joined_off(ms1, active);
        let j1 = half_joined(ms1, active);
        let e = half_entry(ms.last(), active);
        lemma_entry_off(ms.last(), active);
        assert(half_joined(ms, active) == j1 + sep + e);
        assert(j1 + sep + e == j1 + (sep + e));
        assert((sep + e)[0] == ',');
        lemma_stop(j1, sep + e, mark_off());
        lemma_replace_concat(j1, sep + e, mark_off(), z);
        lemma_replace_after_sep(e, mark_off());
        assert(match_entry(ms.last(), None) == match_block(ms.last()));
        assert(joined_entries(ms1, None) + (sep + match_block(ms.last())) =~= joined_entries(ms, None));
    }
}

// ---------------------------------------------------------------------------
// The whole text
// ---------------------------------------------------------------------------

/// The opening of the JSON text: the command and the selection state.
pub open spec fn json_head(
    command: Seq<char>,
    active: Option<usize>,
    expanded: Option<usize>,
    scroll: usize,
    status: Option<i32>,
    pid: Option<u32>,
) -> Seq<char> {
    "{\n  \"command\": \""@ + escaped(command) + "\""@ + json_meta(active, expanded, scroll, status, pid)
}

/// The JSON text of an explanation with no match marked as the active one.
pub open spec fn plain_json(
    e: ExplanationView,
    active: Option<usize>,
    expanded: Option<usize>,
    scroll: usize,
    status: Option<i32>,
    pid: Option<u32>,
) -> Seq<char> {
    let head = json_head(e.0, active, expanded, scroll, status, pid);
    match e.2 {
        Some(err) => head + ",\n  \"error\": \""@ + escaped(err) + "\"\n}"@,
        None => head + ",\n  \"matches\": [\n"@ + joined_entries(e.3, None) + "\n  ]\n}"@,
    }
}

/// Neither highlight code occurs in a text of the explanation that is
/// written.
pub open spec fn texts_unmarked(e: ExplanationView) -> bool {
    &&& unmarked(e.0)
    &&& match e.2 {
        Some(err) => unmarked(err),
        None => forall|i: int| 0 <= i < e.3.len() ==> match_unmarked(#[trigger] e.3[i]),
    }
}

proof fn lemma_head_no_occ(
    command: Seq<char>,
    active: Option<usize>,
    expanded: Option<usize>,
    scroll: usize,
    status: Option<i32>,
    pid: Option<u32>,
    p: Seq<char>,
)
    requires
        p.len() >= 3,
        p[0] == '\x1b',
        outside('"', p),
        no_occurrence(escaped(command), p),
    ensures
        no_occurrence(json_head(command, active, expanded, scroll, status, pid), p),
{
    reveal_strlit("{\n  \"command\": \"");
    reveal_strlit("\"");
    let l0 = "{\n  \"command\": \""@;
    let l1 = "\""@;
    assert(free_of_esc(l0));
    assert(free_of_esc(l1));
    let meta = json_meta(active, expanded, scroll, status, pid);
    lemma_meta_free(active, expanded, scroll, status, pid);
    lemma_free_concat(l1, meta);
    let e = escaped(command);
    lemma_free_no_occ(l1 + meta, p);
    assert((l1 + meta)[0] == '"');
    lemma_stop(e, l1 + meta, p);
    lemma_join(e, l1 + meta, p);
    lemma_free_no_occ(l0, p);
    lemma_free_no_straddle(l0, e + (l1 + meta), p);
    lemma_join(l0, e + (l1 + meta), p);
    assert(json_head(command, active, expanded, scroll, status, pid) =~= l0 + (e + (l1 + meta)));
}

/// Removing the highlight codes from the JSON text leaves the text with no
/// match marked, when neither code occurs in a text of the explanation.
pub proof fn lemma_without_highlight(
    e: ExplanationView,
    active: Option<usize>,
    expanded: Option<usize>,
    scroll: usize,
    status: Option<i32>,
    pid: Option<u32>,
)
    requires
        texts_unmarked(e),
    ensures
        without_highlight(explanation_json(e, active, expanded, scroll, status, pid)) == plain_json(
            e,
            active,
            expanded,
            scroll,
            status,
            pid,
        ),
{
    lemma_mark_literals();
    lemma_marks();
    let z = Seq::<char>::empty();
    let head = json_head(e.0, active, expanded, scroll, status, pid);
    lemma_escaped_unmarked(e.0);
    lemma_head_no_occ(e.0, active, expanded, scroll, status, pid, mark_on());
    lemma_head_no_occ(e.0, active, expanded, scroll, status, pid, mark_off());
    let j = explanation_json(e, active, expanded, scroll, status, pid);
    match e.2 {
        Some(err) => {
            reveal_strlit(",\n  \"error\": \"");
            reveal_strlit("\"\n}");
            let l1 = ",\n  \"error\": \""@;
            let l2 = "\"\n}"@;
            assert(free_of_esc(l1));
            assert(free_of_esc(l2));
            let v = escaped(err);
            lemma_escaped_unmarked(err);
            let r = l1 + (v + l2);
            assert(j =~= head + r);
            assert(r[0] == ',');
            assert(l2[0] == '"');
            lemma_stop(v, l2, mark_on());
            lemma_stop(v, l2, mark_off());
            lemma_free_no_occ(l2, mark_on());
            lemma_free_no_occ(l2, mark_off());
            lemma_join(v, l2, mark_on());
            lemma_join(v, l2, mark_off());
            lemma_free_no_occ(l1, mark_on());
            lemma_free_no_occ(l1, mark_off());
            lemma_free_no_straddle(l1, v + l2, mark_on());
            lemma_free_no_straddle(l1, v + l2, mark_off());
            lemma_join(l1, v + l2, mark_on());
            lemma_join(l1, v + l2, mark_off());
            lemma_stop(head, r, mark_on());
            lemma_stop(head, r, mark_off());
            lemma_join(head, r, mark_on());
            lemma_join(head, r, mark_off());
            lemma_replace_unchanged(j, mark_on(), z);
            lemma_replace_unchanged(j, mark_off(), z);
            assert(head + r =~= head + l1 + v + l2);
        },
        None => {
            reveal_strlit(",\n  \"matches\": [\n");
            reveal_strlit("\n  ]\n}");
            let l1 = ",\n  \"matches\": [\n"@;
            let t = "\n  ]\n}"@;
            assert(free_of_esc(l1));
            assert(free_of_esc(t));
            let h = head + l1;
            let ms = e.3;
            let m = joined_entries(ms, active);
            assert(j == h + m + t);
            assert(h + m + t == h + (m + t));
            // The opening is kept whole by both passes.
            lemma_free_no_occ(l1, mark_on());
            lemma_free_no_occ(l1, mark_off());
            lemma_stop(head, l1, mark_on());
            lemma_stop(head, l1, mark_off());
            lemma_join(head, l1, mark_on());
            lemma_join(head, l1, mark_off());
            lemma_replace_unchanged(h, mark_on(), z);
            lemma_replace_unchanged(h, mark_off(), z);
            lemma_free_safe_end(l1, mark_on());
            lemma_free_safe_end(l1, mark_off());
            lemma_safe_end_prefix(head, l1, mark_on());
            lemma_safe_end_prefix(head, l1, mark_off());
            // The closing too.
            lemma_free_no_occ(t, mark_on());
            lemma_free_no_occ(t, mark_off());
            lemma_replace_unchanged(t, mark_on(), z);
            lemma_replace_unchanged(t, mark_off(), z);
            // The first pass.
            lemma_safe_end(h, m + t, mark_on());
            lemma_replace_concat(h, m + t, mark_on(), z);
            lemma_stop(m, t, mark_on());
            lemma_replace_concat(m, t, mark_on(), z);
            lemma_joined_on(ms, active);
            let half = half_joined(ms, active);
            assert(replace(j, mark_on(), z) == h + (half + t));
            // The second pass.
            lemma_safe_end(h, half + t, mark_off());
            lemma_replace_concat(h, half + t, mark_off(), z);
            lemma_stop(half, t, mark_off());
            lemma_replace_concat(half, t, mark_off(), z);
            lemma_joined_off(ms, active);
            assert(h + (joined_entries(ms, None) + t) =~= h + joined_entries(ms, None) + t);
        },
    }
}

} // verus!
