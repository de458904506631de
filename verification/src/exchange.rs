//! Facts about single keys, strings and numbers in the JSON text that the
//! two panes exchange: where a quoted key can start, and what the reader
//! takes from a field that the writer laid out.
use vstd::prelude::*;
use crate::explainshell::{escape_char, escaped, number_or_null};
use crate::pane::{closing_quote, digits_end, law_unescape_escape, object_end, skip_colon_ws, string_field, usize_field};
use crate::text::{all_digits, decimal, digit_char, digits_value, ends_with, find_from, is_digit, is_ws, occurs_at};

verus! {

/// A character of a JSON key name: a lower-case letter or an underscore.
pub open spec fn is_name_char(c: char) -> bool {
    ('a' <= c && c <= 'z') || c == '_'
}

/// A non-empty key name.
pub open spec fn plain_name(n: Seq<char>) -> bool {
    n.len() > 0 && forall|k: int| 0 <= k < n.len() ==> is_name_char(#[trigger] n[k])
}

/// No occurrence of `p` starts before position `m`.
pub open spec fn no_occ_before(s: Seq<char>, p: Seq<char>, m: int) -> bool {
    forall|j: int| 0 <= j < m ==> !#[trigger] occurs_at(s, p, j)
}

/// A text in double quotes.
pub open spec fn quoted(t: Seq<char>) -> Seq<char> {
    seq!['"'] + t + seq!['"']
}

/// A text that the reader could take for the key `name` when it stands as a
/// string value: the name itself, or a text that ends in a quote and the
/// name.
pub open spec fn mistakable_for(t: Seq<char>, name: Seq<char>) -> bool {
    t == name || ends_with(t, seq!['"'] + name)
}

// ---------------------------------------------------------------------------
// Searching in concatenations
// ---------------------------------------------------------------------------

pub proof fn lemma_occurs_shift(a: Seq<char>, b: Seq<char>, p: Seq<char>, j: int)
    requires
        0 <= j,
    ensures
        occurs_at(a + b, p, a.len() + j) == occurs_at(b, p, j),
{
    if j + p.len() <= b.len() {
        assert((a + b).subrange(a.len() + j, a.len() + j + p.len()) == b.subrange(j, j + p.len()));
    }
}

pub proof fn lemma_no_occ_concat(a: Seq<char>, b: Seq<char>, p: Seq<char>, m: int)
    requires
        no_occ_before(a + b, p, a.len() as int),
        no_occ_before(b, p, m),
    ensures
        no_occ_before(a + b, p, a.len() + m),
{
    assert forall|j: int| 0 <= j < a.len() + m implies !#[trigger] occurs_at(a + b, p, j) by {
        if j >= a.len() {
            lemma_occurs_shift(a, b, p, j - a.len());
        }
    }
}

/// The first occurrence at or after `i`, when none starts in `i..m` and one
/// starts at `m`.
pub proof fn lemma_find_at(s: Seq<char>, p: Seq<char>, i: int, m: int)
    requires
        0 <= i <= m,
        forall|j: int| i <= j < m ==> !#[trigger] occurs_at(s, p, j),
        occurs_at(s, p, m),
    ensures
        find_from(s, p, i) == Some(m),
    decreases m - i,
{
    if i < m {
        lemma_find_at(s, p, i + 1, m);
    }
}

/// No occurrence at or after `i`, when none starts in `i..s.len()`.
pub proof fn lemma_find_none(s: Seq<char>, p: Seq<char>, i: int)
    requires
        0 <= i,
        p.len() > 0,
        forall|j: int| i <= j < s.len() ==> !#[trigger] occurs_at(s, p, j),
    ensures
        find_from(s, p, i) is None,
    decreases s.len() - i,
{
    if i + p.len() > s.len() {
    } else if i + p.len() == s.len() {
    } else {
        lemma_find_none(s, p, i + 1);
    }
}

// ---------------------------------------------------------------------------
// Escaped texts
// ---------------------------------------------------------------------------

pub proof fn lemma_escaped_concat(a: Seq<char>, b: Seq<char>)
    ensures
        escaped(a + b) == escaped(a) + escaped(b),
    decreases a.len(),
{
    if a.len() > 0 {
        lemma_escaped_concat(a.drop_first(), b);
        assert((a + b).drop_first() == a.drop_first() + b);
        assert((a + b)[0] == a[0]);
    } else {
        assert(a + b == b);
    }
}

/// The escape of a text ends with the escape of its last character.
pub proof fn lemma_escaped_last(t: Seq<char>)
    requires
        t.len() > 0,
    ensures
        escaped(t) == escaped(t.drop_last()) + escape_char(t.last()),
{
    lemma_escaped_concat(t.drop_last(), seq![t.last()]);
    assert(t.drop_last() + seq![t.last()] == t);
    let one = seq![t.last()];
    assert(one.drop_first() == Seq::<char>::empty());
    assert(escaped(Seq::<char>::empty()) == Seq::<char>::empty());
    assert(escaped(one) == escape_char(t.last()) + escaped(one.drop_first()));
    assert(escape_char(t.last()) + Seq::<char>::empty() == escape_char(t.last()));
}

/// Every quote in an escaped text follows a backslash.
pub proof fn lemma_escaped_quotes(t: Seq<char>)
    ensures
        forall|m: int| 0 <= m < escaped(t).len() && #[trigger] escaped(t)[m] == '"' ==> m > 0 && escaped(t)[m - 1] == '\\',
    decreases t.len(),
{
    if t.len() > 0 {
        lemma_escaped_quotes(t.drop_first());
        let e = escaped(t);
        let h = escape_char(t[0]);
        let r = escaped(t.drop_first());
        assert(e == h + r);
        assert forall|m: int| 0 <= m < e.len() && #[trigger] e[m] == '"' implies m > 0 && e[m - 1] == '\\' by {
            if m >= h.len() {
                assert(e[m] == r[m - h.len()]);
                if m - h.len() > 0 {
                    assert(e[m - 1] == r[m - h.len() - 1]);
                }
            }
        }
    }
}

/// A name escapes to itself only from itself.
pub proof fn lemma_escaped_is_name(t: Seq<char>, name: Seq<char>)
    requires
        forall|k: int| 0 <= k < name.len() ==> is_name_char(#[trigger] name[k]),
        escaped(t) == name,
    ensures
        t == name,
    decreases t.len(),
{
    if t.len() > 0 {
        let h = escape_char(t[0]);
        let r = escaped(t.drop_first());
        assert(escaped(t) == h + r);
        assert(name[0] == h[0]);
        assert(h.len() == 1);
        assert(r == name.drop_first());
        assert forall|k: int| 0 <= k < name.drop_first().len() implies is_name_char(#[trigger] name.drop_first()[k]) by {
            assert(name.drop_first()[k] == name[k + 1]);
        }
        lemma_escaped_is_name(t.drop_first(), name.drop_first());
        assert(t == seq![t[0]] + t.drop_first());
    } else {
        assert(escaped(t) == Seq::<char>::empty());
    }
}

/// An escaped text ends in a quote and a name only where the text does.
pub proof fn lemma_escaped_ends_with(t: Seq<char>, w: Seq<char>)
    requires
        w.len() > 0,
        w[0] == '"',
        forall|k: int| 1 <= k < w.len() ==> is_name_char(#[trigger] w[k]),
        ends_with(escaped(t), w),
    ensures
        ends_with(t, w),
    decreases w.len(),
{
    let e = escaped(t);
    if t.len() == 0 {
        assert(e == Seq::<char>::empty());
    } else {
        lemma_escaped_last(t);
        let c = t.last();
        let h = escape_char(c);
        let p = escaped(t.drop_last());
        assert(e == p + h);
        assert(e.last() == w.last());
        if w.len() == 1 {
            assert(h.last() == '"');
            assert(c == '"');
            assert(w == seq!['"']);
            assert(t.subrange(t.len() - 1, t.len() as int) == seq![c]);
        } else {
            assert(is_name_char(w.last()));
            if c == '"' || c == '\\' || c == '\n' || c == '\r' || c == '\t' {
                assert(e[e.len() - 2] == '\\');
                assert(w[w.len() - 2] == e[e.len() - 2]);
                if w.len() > 2 {
                    assert(is_name_char(w[w.len() - 2]));
                }
                assert(false);
            }
            assert(h == seq![c]);
            let w1 = w.drop_last();
            assert(ends_with(p, w1)) by {
                assert(p.subrange(p.len() - w1.len(), p.len() as int) == e.subrange(e.len() - w.len(), e.len() - 1));
                assert(e.subrange(e.len() - w.len(), e.len() - 1) == w.subrange(0, w.len() - 1));
            }
            assert forall|k: int| 1 <= k < w1.len() implies is_name_char(#[trigger] w1[k]) by {
                assert(w1[k] == w[k]);
            }
            lemma_escaped_ends_with(t.drop_last(), w1);
            assert(w == w1 + seq![c]);
            assert(t.subrange(t.len() - w.len(), t.len() as int) == t.drop_last().subrange(
                t.drop_last().len() - w1.len(),
                t.drop_last().len() as int,
            ) + seq![c]);
        }
    }
}

// ---------------------------------------------------------------------------
// Where a quoted key cannot start
// ---------------------------------------------------------------------------

/// The pattern of a key: the quoted name, and perhaps a colon after it.
pub open spec fn key_pattern(name: Seq<char>, colon: bool) -> Seq<char> {
    if colon {
        quoted(name) + seq![':']
    } else {
        quoted(name)
    }
}

pub proof fn lemma_key_pattern(name: Seq<char>, colon: bool)
    ensures
        key_pattern(name, colon).len() >= name.len() + 2,
        key_pattern(name, colon)[0] == '"',
        key_pattern(name, colon)[name.len() as int + 1] == '"',
        forall|i: int| 0 <= i < name.len() ==> #[trigger] key_pattern(name, colon)[i + 1] == name[i],
{
    let k = key_pattern(name, colon);
    assert forall|i: int| 0 <= i < name.len() implies #[trigger] k[i + 1] == name[i] by {
        assert(quoted(name)[i + 1] == name[i]);
    }
}

/// A text without quotes: no key starts in it.
pub proof fn lemma_no_quote_no_key(x: Seq<char>, y: Seq<char>, name: Seq<char>, colon: bool)
    requires
        forall|i: int| 0 <= i < x.len() ==> #[trigger] x[i] != '"',
    ensures
        no_occ_before(x + y, key_pattern(name, colon), x.len() as int),
{
    let s = x + y;
    let k = key_pattern(name, colon);
    lemma_key_pattern(name, colon);
    assert forall|j: int| 0 <= j < x.len() implies !#[trigger] occurs_at(s, k, j) by {
        if occurs_at(s, k, j) {
            assert(s[j] == s.subrange(j, j + k.len())[0]);
            assert(s[j] == x[j]);
        }
    }
}

/// A key of another name, with a colon and text without quotes after it:
/// no key starts in it.
pub proof fn lemma_other_key_no_key(kname: Seq<char>, r: Seq<char>, y: Seq<char>, name: Seq<char>, colon: bool)
    requires
        plain_name(kname),
        plain_name(name),
        kname != name,
        r.len() > 0,
        r[0] == ':',
        forall|i: int| 0 <= i < r.len() ==> #[trigger] r[i] != '"',
    ensures
        no_occ_before(quoted(kname) + r + y, key_pattern(name, colon), (quoted(kname) + r).len() as int),
{
    let x = quoted(kname) + r;
    let s = x + y;
    let k = key_pattern(name, colon);
    let n = name.len() as int;
    let kl = kname.len() as int;
    lemma_key_pattern(name, colon);
    assert forall|j: int| 0 <= j < x.len() implies !#[trigger] occurs_at(s, k, j) by {
        if occurs_at(s, k, j) {
            assert forall|i: int| 0 <= i < k.len() implies #[trigger] s[j + i] == k[i] by {
                assert(s.subrange(j, j + k.len())[i] == s[j + i]);
            }
            assert(s[j] == '"');
            if j == 0 {
                if n < kl {
                    assert(s[n + 1] == kname[n]);
                    assert(s[n + 1] == k[n + 1]);
                } else if n > kl {
                    assert(s[kl + 1] == '"');
                    assert(k[kl + 1] == name[kl]);
                    assert(is_name_char(name[kl]));
                } else {
                    assert forall|i: int| 0 <= i < n implies name[i] == #[trigger] kname[i] by {
                        assert(s[i + 1] == kname[i]);
                        assert(k[i + 1] == name[i]);
                    }
                    assert(name == kname);
                }
            } else if j == kl + 1 {
                assert(s[j + 1] == ':');
                assert(k[1] == name[0]);
                assert(is_name_char(name[0]));
            } else if 0 < j < kl + 1 {
                assert(s[j] == kname[j - 1]);
                assert(is_name_char(kname[j - 1]));
            } else {
                assert(s[j] == r[j - kl - 2]);
            }
        }
    }
}

/// A quoted, escaped text that cannot be taken for the name, followed by a
/// character that cannot continue a key: no key of that name starts in it.
pub proof fn lemma_value_no_key(t: Seq<char>, y: Seq<char>, name: Seq<char>, colon: bool)
    requires
        plain_name(name),
        colon || !mistakable_for(t, name),
        y.len() > 0,
        !is_name_char(y[0]),
        y[0] != ':',
    ensures
        no_occ_before(quoted(escaped(t)) + y, key_pattern(name, colon), quoted(escaped(t)).len() as int),
{
    let e = escaped(t);
    let x = quoted(e);
    let s = x + y;
    let k = key_pattern(name, colon);
    let n = name.len() as int;
    let l = e.len() as int;
    lemma_key_pattern(name, colon);
    lemma_escaped_quotes(t);
    assert(s[0] == '"');
    assert(s[l + 1] == '"');
    assert forall|i: int| 0 <= i < l implies #[trigger] s[i + 1] == e[i] by {}
    assert forall|j: int| 0 <= j < x.len() implies !#[trigger] occurs_at(s, k, j) by {
        if occurs_at(s, k, j) {
            assert forall|i: int| 0 <= i < k.len() implies #[trigger] s[j + i] == k[i] by {
                assert(s.subrange(j, j + k.len())[i] == s[j + i]);
            }
            let q = j + n + 1;
            assert(s[q] == '"');
            assert(s[q - 1] == name[n - 1]);
            assert(is_name_char(name[n - 1]));
            if j == l + 1 {
                assert(s[j + 1] == y[0]);
                assert(k[1] == name[0]);
                assert(is_name_char(name[0]));
            } else if q <= l {
                assert(s[q] == e[q - 1]);
                if q - 1 > 0 {
                    assert(e[q - 2] == '\\');
                    assert(s[q - 1] == e[q - 2]);
                }
            } else if q == l + 1 && colon {
                assert(s[l + 2] == y[0]);
                assert(k[n + 2] == ':');
                assert(s[j + n + 2] == k[n + 2]);
            } else if q == l + 1 {
                assert forall|i: int| 0 <= i < n implies #[trigger] e[l - n + i] == name[i] by {
                    assert(s[j + 1 + i] == k[i + 1]);
                    assert(s[j + 1 + i] == e[j + i]);
                }
                if j == 0 {
                    assert(l == n);
                    assert forall|i: int| 0 <= i < n implies #[trigger] e[i] == name[i] by {
                        assert(e[l - n + i] == name[i]);
                    }
                    assert(e =~= name);
                    lemma_escaped_is_name(t, name);
                } else {
                    assert(s[j] == e[j - 1]);
                    assert(e[j - 1] == '"');
                    let w = seq!['"'] + name;
                    assert forall|i: int| 0 <= i < w.len() implies #[trigger] e.subrange(l - n - 1, l)[i] == w[i] by {
                        if i > 0 {
                            assert(e.subrange(l - n - 1, l)[i] == e[l - n + (i - 1)]);
                        }
                    }
                    assert(e.subrange(l - n - 1, l) =~= w);
                    assert(ends_with(e, w));
                    assert forall|i: int| 1 <= i < w.len() implies is_name_char(#[trigger] w[i]) by {
                        assert(w[i] == name[i - 1]);
                    }
                    lemma_escaped_ends_with(t, w);
                }
            } else {
                assert(j < l + 1 < q);
                assert(s[l + 1] == k[l + 1 - j]);
                assert(k[l + 1 - j] == name[l - j]);
                assert(is_name_char(name[l - j]));
            }
        }
    }
}

/// A key that starts in a quoted, escaped text followed by a character that
/// cannot continue a key ends with the text's closing quote.
pub proof fn lemma_value_key_end(t: Seq<char>, y: Seq<char>, name: Seq<char>, j: int)
    requires
        plain_name(name),
        y.len() > 0,
        !is_name_char(y[0]),
        0 <= j < quoted(escaped(t)).len(),
        occurs_at(quoted(escaped(t)) + y, quoted(name), j),
    ensures
        j + quoted(name).len() == quoted(escaped(t)).len(),
{
    let e = escaped(t);
    let x = quoted(e);
    let s = x + y;
    let k = quoted(name);
    let n = name.len() as int;
    let l = e.len() as int;
    lemma_key_pattern(name, false);
    lemma_escaped_quotes(t);
    assert(s[0] == '"');
    assert(s[l + 1] == '"');
    assert forall|i: int| 0 <= i < l implies #[trigger] s[i + 1] == e[i] by {}
    assert forall|i: int| 0 <= i < k.len() implies #[trigger] s[j + i] == k[i] by {
        assert(s.subrange(j, j + k.len())[i] == s[j + i]);
    }
    let q = j + n + 1;
    assert(s[q] == '"');
    assert(s[q - 1] == name[n - 1]);
    assert(is_name_char(name[n - 1]));
    if j == l + 1 {
        assert(s[j + 1] == y[0]);
        assert(k[1] == name[0]);
        assert(is_name_char(name[0]));
    } else if q <= l {
        assert(s[q] == e[q - 1]);
        if q - 1 > 0 {
            assert(e[q - 2] == '\\');
            assert(s[q - 1] == e[q - 2]);
        }
    } else if q > l + 1 {
        assert(j < l + 1 < q);
        assert(s[l + 1] == k[l + 1 - j]);
        assert(k[l + 1 - j] == name[l - j]);
        assert(is_name_char(name[l - j]));
    }
}

/// A text that can be taken for the name holds its key at the end of its
/// quoted, escaped form.
pub proof fn lemma_value_key_at(t: Seq<char>, y: Seq<char>, name: Seq<char>)
    requires
        plain_name(name),
        mistakable_for(t, name),
    ensures
        quoted(name).len() <= quoted(escaped(t)).len(),
        occurs_at(
            quoted(escaped(t)) + y,
            quoted(name),
            quoted(escaped(t)).len() - quoted(name).len(),
        ),
{
    let n = name.len() as int;
    lemma_escaped_name(name);
    let s = quoted(escaped(t)) + y;
    if t == name {
        assert(s.subrange(0, n + 2) =~= quoted(name));
    } else {
        let u = t.take(t.len() - n - 1);
        let w = seq!['"'] + name;
        assert(t.subrange(t.len() - w.len(), t.len() as int) == w);
        assert(t =~= u + w);
        lemma_escaped_concat(u, w);
        lemma_escaped_concat(seq!['"'], name);
        assert(escaped(seq!['"']) =~= seq!['\\', '"']) by {
            let q = seq!['"'];
            assert(q.drop_first() =~= Seq::<char>::empty());
            assert(escaped(q.drop_first()) == Seq::<char>::empty());
            assert(q[0] == '"');
            assert(escaped(q) == escape_char(q[0]) + escaped(q.drop_first()));
        }
        let e = escaped(t);
        assert(e =~= escaped(u) + seq!['\\', '"'] + name);
        let x = quoted(e);
        let p = x.len() - (n + 2);
        assert(s.subrange(p, p + n + 2) =~= quoted(name));
    }
}

/// A plain name escapes to itself.
pub proof fn lemma_escaped_name(n: Seq<char>)
    requires
        forall|k: int| 0 <= k < n.len() ==> is_name_char(#[trigger] n[k]),
    ensures
        escaped(n) == n,
    decreases n.len(),
{
    if n.len() > 0 {
        let r = n.drop_first();
        assert forall|k: int| 0 <= k < r.len() implies is_name_char(#[trigger] r[k]) by {
            assert(r[k] == n[k + 1]);
        }
        lemma_escaped_name(r);
        assert(is_name_char(n[0]));
        assert(escape_char(n[0]) == seq![n[0]]);
        assert(seq![n[0]] + r =~= n);
    }
}

// ---------------------------------------------------------------------------
// Scanning strings, numbers and plain text
// ---------------------------------------------------------------------------

/// The reader's end of a string is the quote after the escaped text.
pub proof fn lemma_closing_quote_escaped(s: Seq<char>, i: int, t: Seq<char>)
    requires
        0 <= i,
        i + escaped(t).len() < s.len(),
        s.subrange(i, i + escaped(t).len() + 1) == escaped(t) + seq!['"'],
    ensures
        closing_quote(s, i, false) == Some(i + escaped(t).len()),
    decreases t.len(),
{
    let e = escaped(t);
    assert(s[i] == s.subrange(i, i + e.len() + 1)[0]);
    if t.len() > 0 {
        let h = escape_char(t[0]);
        let r = escaped(t.drop_first());
        assert(e == h + r);
        assert(s.subrange(i + h.len(), i + h.len() + r.len() + 1) == r + seq!['"']) by {
            assert(s.subrange(i + h.len(), i + h.len() + r.len() + 1) == s.subrange(i, i + e.len() + 1).subrange(
                h.len() as int,
                e.len() as int + 1,
            ));
        }
        lemma_closing_quote_escaped(s, i + h.len(), t.drop_first());
        if h.len() == 2 {
            assert(s[i] == '\\');
            assert(closing_quote(s, i, false) == closing_quote(s, i + 1, true));
            assert(closing_quote(s, i + 1, true) == closing_quote(s, i + 2, false));
        } else {
            assert(s[i] == t[0]);
            assert(t[0] != '\\' && t[0] != '"');
            assert(closing_quote(s, i, false) == closing_quote(s, i + 1, false));
        }
    } else {
        assert(s[i] == '"');
    }
}

/// The object scan steps over a string to after its closing quote.
pub proof fn lemma_object_end_string(s: Seq<char>, i: int, t: Seq<char>, depth: int)
    requires
        0 <= i,
        i + escaped(t).len() < s.len(),
        s.subrange(i, i + escaped(t).len() + 1) == escaped(t) + seq!['"'],
    ensures
        object_end(s, i, depth, true, false) == object_end(s, i + escaped(t).len() + 1, depth, false, false),
    decreases t.len(),
{
    let e = escaped(t);
    assert(s[i] == s.subrange(i, i + e.len() + 1)[0]);
    if t.len() > 0 {
        let h = escape_char(t[0]);
        let r = escaped(t.drop_first());
        assert(e == h + r);
        assert(s.subrange(i + h.len(), i + h.len() + r.len() + 1) == r + seq!['"']) by {
            assert(s.subrange(i + h.len(), i + h.len() + r.len() + 1) == s.subrange(i, i + e.len() + 1).subrange(
                h.len() as int,
                e.len() as int + 1,
            ));
        }
        lemma_object_end_string(s, i + h.len(), t.drop_first(), depth);
        if h.len() == 2 {
            assert(s[i] == '\\');
            assert(object_end(s, i, depth, true, false) == object_end(s, i + 1, depth, true, true));
            assert(object_end(s, i + 1, depth, true, true) == object_end(s, i + 2, depth, true, false));
        } else {
            assert(s[i] == t[0]);
            assert(t[0] != '\\' && t[0] != '"');
            assert(object_end(s, i, depth, true, false) == object_end(s, i + 1, depth, true, false));
        }
    } else {
        assert(s[i] == '"');
    }
}

/// The object scan steps over text without quotes and braces.
pub proof fn lemma_object_end_plain(s: Seq<char>, i: int, m: int, depth: int)
    requires
        0 <= i <= m <= s.len(),
        forall|k: int| i <= k < m ==> #[trigger] s[k] != '"' && s[k] != '{' && s[k] != '}',
    ensures
        object_end(s, i, depth, false, false) == object_end(s, m, depth, false, false),
    decreases m - i,
{
    if i < m {
        lemma_object_end_plain(s, i + 1, m, depth);
    }
}

pub proof fn lemma_decimal_digits(n: nat)
    ensures
        decimal(n).len() > 0,
        all_digits(decimal(n)),
        digits_value(decimal(n)) == n,
    decreases n,
{
    let d = decimal(n);
    if n < 10 {
        assert(d == seq![digit_char(n)]);
        assert(d.drop_last() == Seq::<char>::empty());
        assert((digit_char(n) as u32) == 48 + n);
        assert(digits_value(d) == digits_value(d.drop_last()) * 10 + (((d.last() as u32) - 48) as nat));
    } else {
        lemma_decimal_digits(n / 10);
        let p = decimal(n / 10);
        assert(d == p.push(digit_char(n % 10)));
        assert(d.drop_last() == p);
        assert((digit_char((n % 10) as nat) as u32) == 48 + n % 10);
        assert(d.last() == digit_char((n % 10) as nat));
        assert(digits_value(d) == digits_value(p) * 10 + (((d.last() as u32) - 48) as nat));
        assert(digits_value(d) == (n / 10) * 10 + n % 10);
        assert forall|k: int| 0 <= k < d.len() implies is_digit(#[trigger] d[k]) by {
            if k < p.len() {
                assert(d[k] == p[k]);
            }
        }
    }
}

pub proof fn lemma_digits_end_at(s: Seq<char>, b: int, e: int)
    requires
        0 <= b <= e <= s.len(),
        forall|k: int| b <= k < e ==> is_digit(#[trigger] s[k]),
        e == s.len() || !is_digit(s[e]),
    ensures
        digits_end(s, b) == e,
    decreases e - b,
{
    if b < e {
        lemma_digits_end_at(s, b + 1, e);
    }
}

// ---------------------------------------------------------------------------
// Reading fields
// ---------------------------------------------------------------------------

/// A number field, or `null`, after the first occurrence of its key.
pub proof fn lemma_number_field(p: Seq<char>, name: Seq<char>, o: Option<usize>, r: Seq<char>)
    requires
        no_occ_before(p + quoted(name) + ": "@ + number_or_null(o) + r, quoted(name), p.len() as int),
        r.len() > 0,
        !is_digit(r[0]),
        !is_ws(r[0]),
        r[0] != ':',
    ensures
        usize_field(p + quoted(name) + ": "@ + number_or_null(o) + r, quoted(name)) == o,
{
    reveal_strlit(": ");
    reveal_strlit("null");
    let k = quoted(name);
    let v = number_or_null(o);
    let json = p + k + ": "@ + v + r;
    let pos = p.len() as int;
    assert(json.subrange(pos, pos + k.len()) == k);
    lemma_find_at(json, k, 0, pos);
    let a = pos + k.len();
    assert(json[a] == ':');
    assert(json[a + 1] == ' ');
    let b = a + 2;
    assert(json[b] == v[0] || v.len() == 0);
    match o {
        Some(n) => {
            lemma_decimal_digits(n as nat);
            assert(is_digit(v[0]));
        },
        None => {
            assert(v[0] == 'n');
        },
    }
    assert(json[b] == v[0]);
    assert(skip_colon_ws(json, b) == b);
    assert(skip_colon_ws(json, a + 1) == b);
    assert(skip_colon_ws(json, a) == b);
    let e = b + v.len();
    assert(json[e] == r[0]);
    match o {
        Some(n) => {
            assert forall|k2: int| b <= k2 < e implies is_digit(#[trigger] json[k2]) by {
                assert(json[k2] == v[k2 - b]);
            }
            lemma_digits_end_at(json, b, e);
            assert(json.subrange(b, e) == v);
        },
        None => {
            lemma_digits_end_at(json, b, b);
        },
    }
}

/// A string field after the first occurrence of its key.
pub proof fn lemma_string_field(p: Seq<char>, name: Seq<char>, t: Seq<char>, r: Seq<char>)
    requires
        no_occ_before(p + quoted(name) + ": "@ + quoted(escaped(t)) + r, quoted(name), p.len() as int),
    ensures
        string_field(p + quoted(name) + ": "@ + quoted(escaped(t)) + r, quoted(name)) == Some(t),
{
    reveal_strlit(": ");
    let k = quoted(name);
    let e = escaped(t);
    let json = p + k + ": "@ + quoted(e) + r;
    let pos = p.len() as int;
    assert(json.subrange(pos, pos + k.len()) == k);
    lemma_find_at(json, k, 0, pos);
    let a = pos + k.len();
    let q = a + 2;
    assert(json[a] == ':');
    assert(json[a + 1] == ' ');
    assert(json[q] == '"');
    assert(json.subrange(q, q + 1) == seq!['"']);
    assert(json.subrange(a, a + 1)[0] == json[a]);
    assert(json.subrange(a + 1, a + 2)[0] == json[a + 1]);
    lemma_find_at(json, seq!['"'], a, q);
    assert(json.subrange(q + 1, q + 1 + e.len() + 1) == e + seq!['"']);
    lemma_closing_quote_escaped(json, q + 1, t);
    assert(json.subrange(q + 1, q + 1 + e.len()) == e);
    law_unescape_escape(t);
}

} // verus!
