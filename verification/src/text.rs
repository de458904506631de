//! Character-level text primitives shared by the parsers and renderers.
//!
//! Every operation works on the characters of a string (`Seq<char>` in the
//! contracts, `Vec<char>` at run time) and is specified by a spec function
//! that walks the text one position at a time, the way the loops do.
use vstd::prelude::*;

verus! {

/// `String::push` appends one character to the text, as its documentation
/// says. Taken on trust; what is left unsaid is that it panics when the
/// buffer would outgrow what the allocator can give.
pub assume_specification[ String::push ](s: &mut String, ch: char)
    ensures
        final(s)@ == old(s)@.push(ch),
;

// ---------------------------------------------------------------------------
// Specifications
// ---------------------------------------------------------------------------

/// Unicode `White_Space`, the property that `char::is_whitespace` tests.
pub open spec fn is_ws(c: char) -> bool {
    ||| ('\u{9}' <= c && c <= '\u{d}')
    ||| c == ' '
    ||| c == '\u{85}'
    ||| c == '\u{a0}'
    ||| c == '\u{1680}'
    ||| ('\u{2000}' <= c && c <= '\u{200a}')
    ||| c == '\u{2028}'
    ||| c == '\u{2029}'
    ||| c == '\u{202f}'
    ||| c == '\u{205f}'
    ||| c == '\u{3000}'
}

/// `p` occurs in `s` starting at position `i`.
pub open spec fn occurs_at(s: Seq<char>, p: Seq<char>, i: int) -> bool {
    0 <= i && i + p.len() <= s.len() && s.subrange(i, i + p.len()) == p
}

/// `s` begins with `p`.
pub open spec fn starts_with(s: Seq<char>, p: Seq<char>) -> bool {
    occurs_at(s, p, 0)
}

/// `s` ends with `p`.
pub open spec fn ends_with(s: Seq<char>, p: Seq<char>) -> bool {
    p.len() <= s.len() && s.subrange(s.len() - p.len(), s.len() as int) == p
}

/// The first position at or after `i` where `p` occurs in `s`.
pub open spec fn find_from(s: Seq<char>, p: Seq<char>, i: int) -> Option<int>
    decreases s.len() - i,
{
    if i < 0 || i + p.len() > s.len() {
        None
    } else if occurs_at(s, p, i) {
        Some(i)
    } else if i + p.len() == s.len() {
        None
    } else {
        find_from(s, p, i + 1)
    }
}

/// The first position where `p` occurs in `s` (`str::find`).
pub open spec fn find(s: Seq<char>, p: Seq<char>) -> Option<int> {
    find_from(s, p, 0)
}

/// `p` occurs somewhere in `s` (`str::contains`).
pub open spec fn contains(s: Seq<char>, p: Seq<char>) -> bool {
    find(s, p) is Some
}

/// The last position before `i` that holds `c`.
pub open spec fn rfind_char_before(s: Seq<char>, c: char, i: int) -> Option<int>
    decreases i,
{
    if i <= 0 || i > s.len() {
        None
    } else if s[i - 1] == c {
        Some(i - 1)
    } else {
        rfind_char_before(s, c, i - 1)
    }
}

/// The last position of `c` in `s` (`str::rfind` with a character).
pub open spec fn rfind_char(s: Seq<char>, c: char) -> Option<int> {
    rfind_char_before(s, c, s.len() as int)
}

/// `s` with leading white space removed.
pub open spec fn trim_start(s: Seq<char>) -> Seq<char>
    decreases s.len(),
{
    if s.len() > 0 && is_ws(s[0]) {
        trim_start(s.drop_first())
    } else {
        s
    }
}

/// `s` with trailing white space removed.
pub open spec fn trim_end(s: Seq<char>) -> Seq<char>
    decreases s.len(),
{
    if s.len() > 0 && is_ws(s.last()) {
        trim_end(s.drop_last())
    } else {
        s
    }
}

/// `s` with white space removed at both ends (`str::trim`).
pub open spec fn trim(s: Seq<char>) -> Seq<char> {
    trim_end(trim_start(s))
}

/// The text from position `i` on, with every non-overlapping occurrence of
/// `from` (leftmost first) replaced by `to` (`str::replace`).
pub open spec fn replace_from(s: Seq<char>, from: Seq<char>, to: Seq<char>, i: int) -> Seq<char>
    decreases s.len() - i,
{
    if i < 0 || i >= s.len() || from.len() == 0 {
        Seq::empty()
    } else if occurs_at(s, from, i) {
        to + replace_from(s, from, to, i + from.len())
    } else {
        seq![s[i]] + replace_from(s, from, to, i + 1)
    }
}

/// `str::replace` for a non-empty pattern.
pub open spec fn replace(s: Seq<char>, from: Seq<char>, to: Seq<char>) -> Seq<char> {
    replace_from(s, from, to, 0)
}

/// The position of the first line feed at or after `i`, or the length.
pub open spec fn line_end(s: Seq<char>, i: int) -> int
    decreases s.len() - i,
{
    if i < 0 || i >= s.len() {
        s.len() as int
    } else if s[i] == '\n' {
        i
    } else {
        line_end(s, i + 1)
    }
}

/// A line without its carriage return before the line feed.
pub open spec fn strip_cr(l: Seq<char>) -> Seq<char> {
    if l.len() > 0 && l.last() == '\r' {
        l.drop_last()
    } else {
        l
    }
}

/// The lines of `s` from position `i` on (`str::lines`): split at each line
/// feed, each line without a carriage return before the feed, and no empty
/// line after a final line feed.
pub open spec fn lines_from(s: Seq<char>, i: int) -> Seq<Seq<char>>
    decreases s.len() - i,
{
    if i < 0 || i >= s.len() {
        Seq::empty()
    } else {
        let e = line_end(s, i);
        if e < i || e > s.len() {
            Seq::empty()
        } else if e == s.len() {
            seq![s.subrange(i, e)]
        } else {
            seq![strip_cr(s.subrange(i, e))] + lines_from(s, e + 1)
        }
    }
}

/// `str::lines`.
pub open spec fn lines(s: Seq<char>) -> Seq<Seq<char>> {
    lines_from(s, 0)
}

/// The decimal digit for `d < 10`.
pub open spec fn digit_char(d: nat) -> char {
    ((48 + d) as u32) as char
}

/// The decimal representation of `n` (what `Display` prints for it).
pub open spec fn decimal(n: nat) -> Seq<char>
    decreases n,
{
    if n < 10 {
        seq![digit_char(n)]
    } else {
        decimal(n / 10).push(digit_char(n % 10))
    }
}

/// The decimal representation of a signed number.
pub open spec fn signed_decimal(n: int) -> Seq<char> {
    if n < 0 {
        seq!['-'] + decimal((-n) as nat)
    } else {
        decimal(n as nat)
    }
}

/// `c` is an ASCII decimal digit (`char::is_digit(10)`).
pub open spec fn is_digit(c: char) -> bool {
    '0' <= c && c <= '9'
}

/// The value of a string of ASCII digits, read in base ten.
pub open spec fn digits_value(s: Seq<char>) -> nat
    decreases s.len(),
{
    if s.len() == 0 {
        0
    } else {
        digits_value(s.drop_last()) * 10 + ((s.last() as u32) - 48) as nat
    }
}

/// Every character of `s` is an ASCII digit.
pub open spec fn all_digits(s: Seq<char>) -> bool {
    forall|k: int| 0 <= k < s.len() ==> is_digit(#[trigger] s[k])
}

/// `s` repeated `n` times (`str::repeat`).
pub open spec fn repeat(s: Seq<char>, n: nat) -> Seq<char>
    decreases n,
{
    if n == 0 {
        Seq::empty()
    } else {
        repeat(s, (n - 1) as nat) + s
    }
}

/// The number of bytes that UTF-8 uses for `c`.
pub open spec fn utf8_width(c: char) -> nat {
    if (c as u32) < 0x80 {
        1
    } else if (c as u32) < 0x800 {
        2
    } else if (c as u32) < 0x10000 {
        3
    } else {
        4
    }
}

/// The length in bytes of the UTF-8 encoding of `s` (`str::len`).
pub open spec fn utf8_len(s: Seq<char>) -> nat
    decreases s.len(),
{
    if s.len() == 0 {
        0
    } else {
        utf8_len(s.drop_last()) + utf8_width(s.last())
    }
}

pub open spec fn opt_int(o: Option<usize>) -> Option<int> {
    match o {
        Some(k) => Some(k as int),
        None => None,
    }
}

// ---------------------------------------------------------------------------
// Lemmas
// ---------------------------------------------------------------------------

pub proof fn lemma_find_from(s: Seq<char>, p: Seq<char>, i: int)
    ensures
        find_from(s, p, i) matches Some(k) ==> i <= k && occurs_at(s, p, k) && k + p.len() <= s.len(),
    decreases s.len() - i,
{
    if i < 0 || i + p.len() > s.len() {
    } else if occurs_at(s, p, i) {
    } else if i + p.len() == s.len() {
    } else {
        lemma_find_from(s, p, i + 1);
    }
}

pub proof fn lemma_rfind_char_before(s: Seq<char>, c: char, i: int)
    ensures
        rfind_char_before(s, c, i) matches Some(k) ==> 0 <= k < i && k < s.len() && s[k] == c,
    decreases i,
{
    if i <= 0 || i > s.len() {
    } else if s[i - 1] == c {
    } else {
        lemma_rfind_char_before(s, c, i - 1);
    }
}

pub proof fn lemma_line_end(s: Seq<char>, i: int)
    ensures
        0 <= i <= s.len() ==> i <= line_end(s, i) <= s.len(),
        0 <= i < s.len() ==> line_end(s, i) == s.len() || s[line_end(s, i)] == '\n',
    decreases s.len() - i,
{
    if i < 0 || i >= s.len() {
    } else if s[i] == '\n' {
    } else {
        lemma_line_end(s, i + 1);
    }
}

pub proof fn lemma_digits_value_mono(s: Seq<char>, k: int)
    requires
        0 <= k <= s.len(),
    ensures
        digits_value(s.take(k)) <= digits_value(s),
    decreases s.len(),
{
    if k < s.len() {
        assert(s.drop_last().take(k) == s.take(k));
        lemma_digits_value_mono(s.drop_last(), k);
    } else {
        assert(s.take(k) == s);
    }
}

// ---------------------------------------------------------------------------
// Executable primitives
// ---------------------------------------------------------------------------

/// The characters of a string slice, in order.
pub fn to_chars(s: &str) -> (v: Vec<char>)
    ensures
        v@ == s@,
{
    let mut v: Vec<char> = Vec::new();
    for c in it: s.chars()
        invariant
            v@ == it.seq().take(it.index() as int),
            it.seq() == s@,
    {
        v.push(c);
    }
    v
}

/// Appends the characters `v[a..b]` to `out`.
pub fn push_range(out: &mut String, v: &Vec<char>, a: usize, b: usize)
    requires
        a <= b <= v.len(),
    ensures
        final(out)@ == old(out)@ + v@.subrange(a as int, b as int),
{
    let mut k = a;
    while k < b
        invariant
            a <= k <= b <= v.len(),
            out@ == old(out)@ + v@.subrange(a as int, k as int),
        decreases b - k,
    {
        out.push(v[k]);
        k += 1;
        assert(v@.subrange(a as int, k as int) == v@.subrange(a as int, k - 1) + seq![v@[k - 1]]);
    }
}

/// Appends all characters of `v` to `out`.
pub fn push_chars(out: &mut String, v: &Vec<char>)
    ensures
        final(out)@ == old(out)@ + v@,
{
    push_range(out, v, 0, v.len());
    assert(v@.subrange(0, v.len() as int) == v@);
}

/// Appends a string slice to `out`.
pub fn push_str(out: &mut String, s: &str)
    ensures
        final(out)@ == old(out)@ + s@,
{
    let v = to_chars(s);
    push_chars(out, &v);
}

/// A `String` holding the characters of `v`.
pub fn to_string(v: &Vec<char>) -> (s: String)
    ensures
        s@ == v@,
{
    let mut s = String::new();
    push_chars(&mut s, v);
    s
}

/// A `String` holding `s`.
pub fn owned(s: &str) -> (r: String)
    ensures
        r@ == s@,
{
    let mut r = String::new();
    push_str(&mut r, s);
    r
}

/// Appends `v[a..b]` to a character vector.
pub fn extend_range(out: &mut Vec<char>, v: &Vec<char>, a: usize, b: usize)
    requires
        a <= b <= v.len(),
    ensures
        final(out)@ == old(out)@ + v@.subrange(a as int, b as int),
{
    let mut k = a;
    while k < b
        invariant
            a <= k <= b <= v.len(),
            out@ == old(out)@ + v@.subrange(a as int, k as int),
        decreases b - k,
    {
        out.push(v[k]);
        k += 1;
        assert(v@.subrange(a as int, k as int) == v@.subrange(a as int, k - 1) + seq![v@[k - 1]]);
    }
}

/// Appends all of `v` to a character vector.
pub fn extend(out: &mut Vec<char>, v: &Vec<char>)
    ensures
        final(out)@ == old(out)@ + v@,
{
    extend_range(out, v, 0, v.len());
    assert(v@.subrange(0, v.len() as int) == v@);
}

/// The characters `v[a..b]`.
pub fn slice_of(v: &Vec<char>, a: usize, b: usize) -> (r: Vec<char>)
    requires
        a <= b <= v.len(),
    ensures
        r@ == v@.subrange(a as int, b as int),
{
    let mut r: Vec<char> = Vec::new();
    extend_range(&mut r, v, a, b);
    r
}

/// `char::is_whitespace`.
pub fn is_whitespace(c: char) -> (b: bool)
    ensures
        b == is_ws(c),
{
    ('\u{9}' <= c && c <= '\u{d}') || c == ' ' || c == '\u{85}' || c == '\u{a0}' || c == '\u{1680}'
        || ('\u{2000}' <= c && c <= '\u{200a}') || c == '\u{2028}' || c == '\u{2029}' || c
        == '\u{202f}' || c == '\u{205f}' || c == '\u{3000}'
}

/// Whether `p` occurs in `s` at position `i`.
pub fn matches_at(s: &Vec<char>, p: &Vec<char>, i: usize) -> (b: bool)
    ensures
        b == occurs_at(s@, p@, i as int),
{
    if i > s.len() || p.len() > s.len() - i {
        return false;
    }
    let mut k: usize = 0;
    while k < p.len()
        invariant
            i + p.len() <= s.len(),
            k <= p.len(),
            s@.subrange(i as int, i + k) == p@.take(k as int),
        decreases p.len() - k,
    {
        if s[i + k] != p[k] {
            assert(s@.subrange(i as int, i + p.len())[k as int] == s@[i + k]);
            return false;
        }
        k += 1;
        assert(s@.subrange(i as int, i + k) == s@.subrange(i as int, i + k - 1) + seq![s@[i + k - 1]]);
        assert(p@.take(k as int) == p@.take(k - 1) + seq![p@[k - 1]]);
    }
    assert(p@.take(p.len() as int) == p@);
    true
}

/// Whether `s` begins with `p`.
pub fn starts_with_chars(s: &Vec<char>, p: &Vec<char>) -> (b: bool)
    ensures
        b == starts_with(s@, p@),
{
    matches_at(s, p, 0)
}

/// Whether `s` ends with `p`.
pub fn ends_with_chars(s: &Vec<char>, p: &Vec<char>) -> (b: bool)
    ensures
        b == ends_with(s@, p@),
{
    if p.len() > s.len() {
        return false;
    }
    let r = matches_at(s, p, s.len() - p.len());
    r
}

/// The first position at or after `i` where `p` occurs in `s`.
pub fn find_chars_from(s: &Vec<char>, p: &Vec<char>, i: usize) -> (r: Option<usize>)
    ensures
        opt_int(r) == find_from(s@, p@, i as int),
{
    if i > s.len() {
        return None;
    }
    let mut j = i;
    while p.len() <= s.len() - j
        invariant
            find_from(s@, p@, i as int) == find_from(s@, p@, j as int),
            i <= j <= s.len(),
        decreases s.len() - j,
    {
        if matches_at(s, p, j) {
            return Some(j);
        }
        if j == s.len() {
            return None;
        }
        j += 1;
    }
    None
}

/// The first position where `p` occurs in `s`.
pub fn find_chars(s: &Vec<char>, p: &Vec<char>) -> (r: Option<usize>)
    ensures
        opt_int(r) == find(s@, p@),
{
    find_chars_from(s, p, 0)
}

/// Whether `p` occurs in `s`.
pub fn contains_chars(s: &Vec<char>, p: &Vec<char>) -> (b: bool)
    ensures
        b == contains(s@, p@),
{
    find_chars(s, p).is_some()
}

/// Whether the string literal or slice `p` occurs in `s`.
pub fn contains_str(s: &Vec<char>, p: &str) -> (b: bool)
    ensures
        b == contains(s@, p@),
{
    let pv = to_chars(p);
    contains_chars(s, &pv)
}

/// The last position of `c` in `s`.
pub fn rfind_char_chars(s: &Vec<char>, c: char) -> (r: Option<usize>)
    ensures
        opt_int(r) == rfind_char(s@, c),
{
    let mut i = s.len();
    while i > 0
        invariant
            i <= s.len(),
            rfind_char(s@, c) == rfind_char_before(s@, c, i as int),
        decreases i,
    {
        if s[i - 1] == c {
            return Some(i - 1);
        }
        i -= 1;
    }
    None
}

/// The bounds of `s` without leading white space.
pub fn trim_start_index(s: &Vec<char>) -> (a: usize)
    ensures
        a <= s.len(),
        s@.skip(a as int) == trim_start(s@),
{
    let mut a: usize = 0;
    assert(s@.skip(0) == s@);
    while a < s.len() && is_whitespace(s[a])
        invariant
            a <= s.len(),
            trim_start(s@) == trim_start(s@.skip(a as int)),
        decreases s.len() - a,
    {
        assert(s@.skip(a as int).drop_first() == s@.skip(a + 1));
        a += 1;
    }
    a
}

/// The bounds of `s` without trailing white space.
pub fn trim_end_index(s: &Vec<char>) -> (b: usize)
    ensures
        b <= s.len(),
        s@.take(b as int) == trim_end(s@),
{
    let mut b: usize = s.len();
    assert(s@.take(b as int) == s@);
    while b > 0 && is_whitespace(s[b - 1])
        invariant
            b <= s.len(),
            trim_end(s@) == trim_end(s@.take(b as int)),
        decreases b,
    {
        assert(s@.take(b as int).drop_last() == s@.take(b - 1));
        b -= 1;
    }
    b
}

/// `s` without leading white space.
pub fn trim_start_chars(s: &Vec<char>) -> (r: Vec<char>)
    ensures
        r@ == trim_start(s@),
{
    let a = trim_start_index(s);
    slice_of(s, a, s.len())
}

/// `s` without trailing white space.
pub fn trim_end_chars(s: &Vec<char>) -> (r: Vec<char>)
    ensures
        r@ == trim_end(s@),
{
    let b = trim_end_index(s);
    slice_of(s, 0, b)
}

/// `s` without white space at either end.
pub fn trim_chars(s: &Vec<char>) -> (r: Vec<char>)
    ensures
        r@ == trim(s@),
{
    let t = trim_start_chars(s);
    trim_end_chars(&t)
}

/// `s` with each occurrence of `from` replaced by `to`.
pub fn replace_chars(s: &Vec<char>, from: &Vec<char>, to: &Vec<char>) -> (r: Vec<char>)
    requires
        from.len() > 0,
    ensures
        r@ == replace(s@, from@, to@),
{
    let mut r: Vec<char> = Vec::new();
    let mut i: usize = 0;
    while i < s.len()
        invariant
            from.len() > 0,
            i <= s.len(),
            r@ + replace_from(s@, from@, to@, i as int) == replace(s@, from@, to@),
        decreases s.len() - i,
    {
        if matches_at(s, from, i) {
            let ghost r0 = r@;
            extend(&mut r, to);
            assert(r@ + replace_from(s@, from@, to@, i + from.len()) == r0 + replace_from(s@, from@, to@, i as int)) by {
                assert((r0 + to@) + replace_from(s@, from@, to@, i + from.len()) == r0 + (to@ + replace_from(s@, from@, to@, i + from.len())));
            }
            i = i + from.len();
        } else {
            let ghost r0 = r@;
            r.push(s[i]);
            assert(r@ + replace_from(s@, from@, to@, i + 1) == r0 + replace_from(s@, from@, to@, i as int)) by {
                assert(r0.push(s@[i as int]) + replace_from(s@, from@, to@, i + 1) == r0 + (seq![s@[i as int]] + replace_from(s@, from@, to@, i + 1)));
            }
            i = i + 1;
        }
    }
    assert(r@ + replace_from(s@, from@, to@, i as int) == r@);
    r
}

/// `s` with each occurrence of the literal `from` replaced by `to`.
pub fn replace_str(s: &Vec<char>, from: &str, to: &str) -> (r: Vec<char>)
    requires
        from@.len() > 0,
    ensures
        r@ == replace(s@, from@, to@),
{
    let f = to_chars(from);
    let t = to_chars(to);
    replace_chars(s, &f, &t)
}

/// The views of a sequence of character vectors.
pub open spec fn views(v: Seq<Vec<char>>) -> Seq<Seq<char>> {
    Seq::new(v.len(), |k: int| v[k]@)
}

/// The position of the first line feed at or after `i`, or the length.
pub fn line_end_index(s: &Vec<char>, i: usize) -> (e: usize)
    requires
        i <= s.len(),
    ensures
        e == line_end(s@, i as int),
{
    let mut j = i;
    while j < s.len() && s[j] != '\n'
        invariant
            i <= j <= s.len(),
            line_end(s@, i as int) == line_end(s@, j as int),
        decreases s.len() - j,
    {
        j += 1;
    }
    j
}

/// The lines of `s`.
pub fn lines_chars(s: &Vec<char>) -> (r: Vec<Vec<char>>)
    ensures
        views(r@) == lines(s@),
{
    let mut r: Vec<Vec<char>> = Vec::new();
    let mut i: usize = 0;
    while i < s.len()
        invariant
            i <= s.len(),
            views(r@) + lines_from(s@, i as int) == lines(s@),
        decreases s.len() - i,
    {
        let e = line_end_index(s, i);
        proof {
            lemma_line_end(s@, i as int);
        }
        let ghost r0 = views(r@);
        if e == s.len() {
            let l = slice_of(s, i, e);
            r.push(l);
            assert(views(r@) == r0.push(s@.subrange(i as int, e as int)));
            assert(lines_from(s@, e as int) == Seq::<Seq<char>>::empty());
            i = e;
        } else {
            let mut b = e;
            if b > i && s[b - 1] == '\r' {
                b = b - 1;
            }
            let l = slice_of(s, i, b);
            assert(l@ == strip_cr(s@.subrange(i as int, e as int)));
            r.push(l);
            assert(views(r@) == r0.push(l@));
            assert(r0.push(l@) + lines_from(s@, e + 1) == r0 + (seq![l@] + lines_from(s@, e + 1)));
            i = e + 1;
        }
    }
    assert(lines_from(s@, i as int) == Seq::<Seq<char>>::empty());
    assert(views(r@) + Seq::<Seq<char>>::empty() == views(r@));
    r
}

/// The decimal digit character for `d < 10`.
pub fn digit(d: u64) -> (c: char)
    requires
        d < 10,
    ensures
        c == digit_char(d as nat),
{
    if d == 0 {
        '0'
    } else if d == 1 {
        '1'
    } else if d == 2 {
        '2'
    } else if d == 3 {
        '3'
    } else if d == 4 {
        '4'
    } else if d == 5 {
        '5'
    } else if d == 6 {
        '6'
    } else if d == 7 {
        '7'
    } else if d == 8 {
        '8'
    } else {
        '9'
    }
}

/// Appends the decimal representation of `n`.
pub fn push_decimal(out: &mut String, n: u64)
    ensures
        final(out)@ == old(out)@ + decimal(n as nat),
    decreases n,
{
    if n >= 10 {
        push_decimal(out, n / 10);
    }
    out.push(digit(n % 10));
}

/// Appends the decimal representation of a signed number.
pub fn push_signed_decimal(out: &mut String, n: i64)
    ensures
        final(out)@ == old(out)@ + signed_decimal(n as int),
{
    if n < 0 {
        out.push('-');
        let m: u64 = if n == i64::MIN {
            9223372036854775808u64
        } else {
            (-n) as u64
        };
        let ghost o1 = out@;
        push_decimal(out, m);
        assert(out@ == old(out)@ + (seq!['-'] + decimal((-n) as nat)));
    } else {
        push_decimal(out, n as u64);
    }
}

/// The value of a non-empty string of digits, or `None` where it exceeds
/// `usize::MAX` (`str::parse::<usize>` on such a string).
pub fn parse_digits(s: &Vec<char>) -> (r: Option<usize>)
    requires
        all_digits(s@),
    ensures
        match r {
            Some(v) => v == digits_value(s@),
            None => digits_value(s@) > usize::MAX,
        },
{
    let mut v: usize = 0;
    let mut i: usize = 0;
    assert(s@.take(0) == Seq::<char>::empty());
    while i < s.len()
        invariant
            all_digits(s@),
            i <= s.len(),
            v == digits_value(s@.take(i as int)),
        decreases s.len() - i,
    {
        let d = (s[i] as u32 - 48) as usize;
        assert(s@.take(i + 1).drop_last() == s@.take(i as int));
        assert(is_digit(s@[i as int]));
        match v.checked_mul(10) {
            Some(m) => match m.checked_add(d) {
                Some(w) => {
                    v = w;
                },
                None => {
                    proof {
                        lemma_digits_value_mono(s@, i + 1);
                    }
                    return None;
                },
            },
            None => {
                proof {
                    lemma_digits_value_mono(s@, i + 1);
                }
                return None;
            },
        }
        i += 1;
    }
    assert(s@.take(s.len() as int) == s@);
    Some(v)
}

/// Appends `s` repeated `n` times.
pub fn push_repeat(out: &mut String, s: &str, n: usize)
    ensures
        final(out)@ == old(out)@ + repeat(s@, n as nat),
{
    let v = to_chars(s);
    let mut k: usize = 0;
    while k < n
        invariant
            k <= n,
            v@ == s@,
            out@ == old(out)@ + repeat(s@, k as nat),
        decreases n - k,
    {
        push_chars(out, &v);
        k += 1;
    }
}

/// Whether the UTF-8 encoding of `s` takes at most `limit` bytes.
pub fn utf8_len_at_most(s: &Vec<char>, limit: usize) -> (b: bool)
    ensures
        b == (utf8_len(s@) <= limit),
{
    let mut n: usize = 0;
    let mut i: usize = 0;
    assert(s@.take(0) == Seq::<char>::empty());
    while i < s.len()
        invariant
            i <= s.len(),
            n == utf8_len(s@.take(i as int)),
            n <= limit,
        decreases s.len() - i,
    {
        let c = s[i];
        let w: usize = if (c as u32) < 0x80 {
            1
        } else if (c as u32) < 0x800 {
            2
        } else if (c as u32) < 0x10000 {
            3
        } else {
            4
        };
        assert(s@.take(i + 1).drop_last() == s@.take(i as int));
        if w > limit - n {
            proof {
                lemma_utf8_len_mono(s@, i + 1);
            }
            return false;
        }
        n = n + w;
        i += 1;
    }
    assert(s@.take(s.len() as int) == s@);
    true
}

pub proof fn lemma_utf8_len_mono(s: Seq<char>, k: int)
    requires
        0 <= k <= s.len(),
    ensures
        utf8_len(s.take(k)) <= utf8_len(s),
    decreases s.len(),
{
    if k < s.len() {
        assert(s.drop_last().take(k) == s.take(k));
        lemma_utf8_len_mono(s.drop_last(), k);
    } else {
        assert(s.take(k) == s);
    }
}

/// Whether two character vectors hold the same text.
pub fn chars_eq(a: &Vec<char>, b: &Vec<char>) -> (r: bool)
    ensures
        r == (a@ == b@),
{
    if a.len() != b.len() {
        return false;
    }
    let r = matches_at(a, b, 0);
    proof {
        if r {
            assert(a@.subrange(0, a@.len() as int) == a@);
        } else {
            assert(a@.subrange(0, b@.len() as int) == a@);
        }
    }
    r
}

pub proof fn lemma_trim_start_len(s: Seq<char>)
    ensures
        trim_start(s).len() <= s.len(),
    decreases s.len(),
{
    if s.len() > 0 && is_ws(s[0]) {
        lemma_trim_start_len(s.drop_first());
    }
}

pub proof fn lemma_trim_end_len(s: Seq<char>)
    ensures
        trim_end(s).len() <= s.len(),
    decreases s.len(),
{
    if s.len() > 0 && is_ws(s.last()) {
        lemma_trim_end_len(s.drop_last());
    }
}

pub proof fn lemma_trim_len(s: Seq<char>)
    ensures
        trim(s).len() <= s.len(),
{
    lemma_trim_start_len(s);
    lemma_trim_end_len(trim_start(s));
}

/// The digits of an unsigned number's text: without one leading `+`.
pub open spec fn unsigned_digits(s: Seq<char>) -> Seq<char> {
    if s.len() > 0 && s[0] == '+' {
        s.drop_first()
    } else {
        s
    }
}

/// `str::parse` for an unsigned type whose largest value is `max`: an
/// optional `+` and at least one digit, of value at most `max`.
pub open spec fn parse_unsigned(s: Seq<char>, max: nat) -> Option<nat> {
    let d = unsigned_digits(s);
    if d.len() > 0 && all_digits(d) && digits_value(d) <= max {
        Some(digits_value(d))
    } else {
        None
    }
}

/// Parses an unsigned number of value at most `max`.
pub fn parse_unsigned_chars(s: &Vec<char>, max: usize) -> (r: Option<usize>)
    ensures
        match r {
            Some(v) => parse_unsigned(s@, max as nat) == Some(v as nat),
            None => parse_unsigned(s@, max as nat) is None,
        },
{
    let d = if s.len() > 0 && s[0] == '+' {
        slice_of(s, 1, s.len())
    } else {
        slice_of(s, 0, s.len())
    };
    assert(s@.subrange(0, s@.len() as int) == s@);
    assert(s@.len() > 0 ==> s@.subrange(1, s@.len() as int) == s@.drop_first());
    assert(d@ == unsigned_digits(s@));
    if d.len() == 0 {
        return None;
    }
    let mut k: usize = 0;
    while k < d.len()
        invariant
            k <= d.len(),
            d@ == unsigned_digits(s@),
            forall|j: int| 0 <= j < k ==> is_digit(#[trigger] d@[j]),
        decreases d.len() - k,
    {
        if !('0' <= d[k] && d[k] <= '9') {
            return None;
        }
        k += 1;
    }
    match parse_digits(&d) {
        Some(v) => {
            if v <= max {
                Some(v)
            } else {
                None
            }
        },
        None => None,
    }
}

pub proof fn lemma_trim_start_suffix(s: Seq<char>)
    ensures
        trim_start(s).len() <= s.len(),
        trim_start(s) == s.skip(s.len() - trim_start(s).len()),
        trim_start(s).len() > 0 ==> !is_ws(trim_start(s)[0]),
    decreases s.len(),
{
    if s.len() > 0 && is_ws(s[0]) {
        lemma_trim_start_suffix(s.drop_first());
        assert(s.drop_first().skip(s.len() - 1 - trim_start(s).len()) == s.skip(s.len() - trim_start(s).len()));
    } else {
        assert(s.skip(0) == s);
    }
}

pub proof fn lemma_trim_end_prefix(s: Seq<char>)
    ensures
        trim_end(s).len() <= s.len(),
        trim_end(s) == s.take(trim_end(s).len() as int),
        trim_end(s).len() > 0 ==> !is_ws(trim_end(s).last()),
    decreases s.len(),
{
    if s.len() > 0 && is_ws(s.last()) {
        lemma_trim_end_prefix(s.drop_last());
        assert(s.drop_last().take(trim_end(s).len() as int) == s.take(trim_end(s).len() as int));
    } else {
        assert(s.take(s.len() as int) == s);
    }
}

/// A trimmed text is a part of the text without white space at either end.
pub proof fn lemma_trim(s: Seq<char>)
    ensures
        exists|a: int, b: int| 0 <= a <= b <= s.len() && trim(s) == #[trigger] s.subrange(a, b),
        trim(s).len() > 0 ==> !is_ws(trim(s)[0]) && !is_ws(trim(s).last()),
{
    let t = trim_start(s);
    lemma_trim_start_suffix(s);
    lemma_trim_end_prefix(t);
    let a = s.len() - t.len();
    let b = a + trim_end(t).len();
    assert(trim(s) == s.subrange(a, b));
    if trim(s).len() > 0 {
        assert(trim(s)[0] == t[0]);
    }
}

/// Replacing a one-character pattern leaves a character `c` out of the
/// result when `c` occurs in the text only as the pattern and not in the
/// replacement.
pub proof fn lemma_replace_excludes(s: Seq<char>, from: Seq<char>, to: Seq<char>, i: int, c: char)
    requires
        from.len() == 1,
        forall|k: int| 0 <= k < s.len() && s[k] == c ==> from[0] == c,
        forall|k: int| 0 <= k < to.len() ==> to[k] != c,
    ensures
        forall|k: int| 0 <= k < replace_from(s, from, to, i).len() ==> #[trigger] replace_from(s, from, to, i)[k] != c,
    decreases s.len() - i,
{
    if i < 0 || i >= s.len() {
    } else {
        let r = replace_from(s, from, to, i);
        if occurs_at(s, from, i) {
            lemma_replace_excludes(s, from, to, i + 1, c);
            let rest = replace_from(s, from, to, i + 1);
            assert(r == to + rest);
            assert forall|k: int| 0 <= k < r.len() implies #[trigger] r[k] != c by {
                if k >= to.len() {
                    assert(r[k] == rest[k - to.len()]);
                }
            }
        } else {
            lemma_replace_excludes(s, from, to, i + 1, c);
            let rest = replace_from(s, from, to, i + 1);
            assert(r == seq![s[i]] + rest);
            if s[i] == from[0] {
                assert(s.subrange(i, i + 1) =~= from);
            }
            assert(s[i] != from[0]);
            assert forall|k: int| 0 <= k < r.len() implies #[trigger] r[k] != c by {
                if k >= 1 {
                    assert(r[k] == rest[k - 1]);
                }
            }
        }
    }
}

/// A text that trims to nothing at its start is all white space.
pub proof fn lemma_trim_start_empty(s: Seq<char>)
    requires
        trim_start(s).len() == 0,
    ensures
        forall|i: int| 0 <= i < s.len() ==> is_ws(#[trigger] s[i]),
    decreases s.len(),
{
    if s.len() > 0 {
        lemma_trim_start_empty(s.drop_first());
        assert forall|i: int| 0 <= i < s.len() implies is_ws(#[trigger] s[i]) by {
            if i > 0 {
                assert(s[i] == s.drop_first()[i - 1]);
            }
        }
    }
}

/// Trimming the start of a text followed by more text.
pub proof fn lemma_trim_start_concat(x: Seq<char>, y: Seq<char>)
    requires
        trim_start(x).len() > 0 || (y.len() > 0 && !is_ws(y[0])),
    ensures
        trim_start(x + y) == trim_start(x) + y,
    decreases x.len(),
{
    if x.len() == 0 {
        assert(x + y =~= y);
        assert(trim_start(x) + y =~= y);
    } else if is_ws(x[0]) {
        assert((x + y).drop_first() =~= x.drop_first() + y);
        lemma_trim_start_concat(x.drop_first(), y);
    } else {
        assert((x + y)[0] == x[0]);
    }
}

/// Trimming the end of a text that follows a text with a last character
/// that is not white space.
pub proof fn lemma_trim_end_concat(x: Seq<char>, y: Seq<char>)
    requires
        x.len() > 0,
        !is_ws(x.last()),
    ensures
        trim_end(x + y) == x + trim_end(y),
    decreases y.len(),
{
    if y.len() == 0 {
        assert(x + y =~= x);
        assert(x + trim_end(y) =~= x);
    } else if is_ws(y.last()) {
        assert((x + y).drop_last() =~= x + y.drop_last());
        assert((x + y).last() == y.last());
        lemma_trim_end_concat(x, y.drop_last());
    } else {
        assert((x + y).last() == y.last());
    }
}

/// Trimming the start and the end can be done in either order.
pub proof fn lemma_trim_commute(n: Seq<char>)
    ensures
        trim_start(trim_end(n)) == trim_end(trim_start(n)),
    decreases n.len(),
{
    if n.len() == 0 {
    } else if is_ws(n.last()) {
        let m = n.drop_last();
        lemma_trim_commute(m);
        assert(n =~= m + seq![n.last()]);
        if trim_start(m).len() > 0 {
            lemma_trim_start_concat(m, seq![n.last()]);
            let t = trim_start(m);
            assert((t + seq![n.last()]).drop_last() =~= t);
        } else {
            lemma_trim_start_empty(m);
            assert forall|i: int| 0 <= i < n.len() implies is_ws(#[trigger] n[i]) by {
                if i < m.len() {
                    assert(n[i] == m[i]);
                }
            }
            lemma_all_ws_trim_start(n);
        }
    } else {
        lemma_trim_start_suffix(n);
        let t = trim_start(n);
        if t.len() == 0 {
            lemma_trim_start_empty(n);
            assert(is_ws(n[n.len() - 1]));
        } else {
            assert(t.last() == n.last());
        }
    }
}

/// A text of white space trims to nothing.
pub proof fn lemma_all_ws_trim_start(s: Seq<char>)
    requires
        forall|i: int| 0 <= i < s.len() ==> is_ws(#[trigger] s[i]),
    ensures
        trim_start(s).len() == 0,
    decreases s.len(),
{
    if s.len() > 0 {
        assert(is_ws(s[0]));
        assert forall|i: int| 0 <= i < s.drop_first().len() implies is_ws(#[trigger] s.drop_first()[i]) by {
            assert(s.drop_first()[i] == s[i + 1]);
        }
        lemma_all_ws_trim_start(s.drop_first());
    }
}

/// Trimming the end twice changes nothing more.
pub proof fn lemma_trim_end_twice(s: Seq<char>)
    ensures
        trim_end(trim_end(s)) == trim_end(s),
{
    lemma_trim_end_prefix(s);
}

/// Trimming a text trimmed at its end.
pub proof fn lemma_trim_of_trim_end(n: Seq<char>)
    ensures
        trim(trim_end(n)) == trim(n),
{
    lemma_trim_commute(n);
    lemma_trim_end_twice(trim_start(n));
}

/// The last occurrence of `c` before `i` is at `k` when none follows it.
pub proof fn lemma_rfind_char_at(s: Seq<char>, c: char, i: int, k: int)
    requires
        0 <= k < i <= s.len(),
        s[k] == c,
        forall|j: int| k < j < i ==> #[trigger] s[j] != c,
    ensures
        rfind_char_before(s, c, i) == Some(k),
    decreases i,
{
    if i - 1 > k {
        lemma_rfind_char_at(s, c, i - 1, k);
    }
}

} // verus!
