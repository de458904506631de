//! What the explanation pane reads back of the JSON text that the command
//! list writes.
use vstd::prelude::*;
use crate::exchange::{
    is_name_char, key_pattern, lemma_decimal_digits, lemma_find_at, lemma_find_none, lemma_no_occ_concat,
    lemma_no_quote_no_key, lemma_number_field, lemma_object_end_string, lemma_other_key_no_key, lemma_string_field,
    lemma_value_no_key, mistakable_for, no_occ_before, plain_name, quoted,
};
use crate::explainshell::{
    escape_char, escaped, joined_entries, json_meta, json_pid_status, match_block, match_entry, number_or_null,
    MatchView,
};
use crate::pane::{
    parsed_json, matches_from, object_end, object_match, parsed_matches, string_field, usize_field, ParsedMatchView,
};
use crate::text::{decimal, find, find_from, is_digit, is_ws, occurs_at, signed_decimal};

verus! {

/// A text without double quotes.
pub open spec fn quote_free(v: Seq<char>) -> bool {
    forall|k: int| 0 <= k < v.len() ==> #[trigger] v[k] != '"'
}

/// One field of the JSON object after the first: a comma, a line feed, the
/// indent, the quoted key, a colon and the value.
pub open spec fn field(name: Seq<char>, v: Seq<char>) -> Seq<char> {
    ",\n  "@ + quoted(name) + ": "@ + v
}

/// Fields one after the other.
pub open spec fn fields(l: Seq<(Seq<char>, Seq<char>)>) -> Seq<char>
    decreases l.len(),
{
    if l.len() == 0 {
        Seq::empty()
    } else {
        field(l[0].0, l[0].1) + fields(l.drop_first())
    }
}

/// Fields whose keys are plain names other than `name`, and whose values
/// hold no quote.
pub open spec fn fields_apart(l: Seq<(Seq<char>, Seq<char>)>, name: Seq<char>) -> bool {
    forall|i: int|
        0 <= i < l.len() ==> plain_name(#[trigger] l[i].0) && l[i].0 != name && quote_free(l[i].1)
}

pub proof fn lemma_quote_free_concat(a: Seq<char>, b: Seq<char>)
    requires
        quote_free(a),
        quote_free(b),
    ensures
        quote_free(a + b),
{
    assert forall|k: int| 0 <= k < (a + b).len() implies #[trigger] (a + b)[k] != '"' by {
        if k >= a.len() {
            assert((a + b)[k] == b[k - a.len()]);
        }
    }
}

pub proof fn lemma_digits_quote_free(d: Seq<char>)
    requires
        forall|k: int| 0 <= k < d.len() ==> is_digit(#[trigger] d[k]),
    ensures
        quote_free(d),
{
    assert forall|k: int| 0 <= k < d.len() implies #[trigger] d[k] != '"' by {
        assert(is_digit(d[k]));
    }
}

pub proof fn lemma_field_no_key(k: Seq<char>, v: Seq<char>, y: Seq<char>, name: Seq<char>, colon: bool)
    requires
        plain_name(k),
        plain_name(name),
        k != name,
        quote_free(v),
    ensures
        no_occ_before(field(k, v) + y, key_pattern(name, colon), field(k, v).len() as int),
        field(k, v)[0] == ',',
{
    reveal_strlit(",\n  ");
    reveal_strlit(": ");
    let a = ",\n  "@;
    let r = ": "@ + v;
    let b = quoted(k) + r + y;
    lemma_no_quote_no_key(a, b, name, colon);
    assert(quote_free(": "@));
    lemma_quote_free_concat(": "@, v);
    assert(r[0] == ':');
    lemma_other_key_no_key(k, r, y, name, colon);
    lemma_no_occ_concat(a, b, key_pattern(name, colon), (quoted(k) + r).len() as int);
    assert(a + b =~= field(k, v) + y);
    assert(field(k, v) =~= a + (quoted(k) + r));
}

pub proof fn lemma_fields_no_key(l: Seq<(Seq<char>, Seq<char>)>, y: Seq<char>, name: Seq<char>, colon: bool)
    requires
        plain_name(name),
        fields_apart(l, name),
    ensures
        no_occ_before(fields(l) + y, key_pattern(name, colon), fields(l).len() as int),
        l.len() > 0 ==> fields(l)[0] == ',',
    decreases l.len(),
{
    if l.len() > 0 {
        let rest = l.drop_first();
        assert forall|i: int| 0 <= i < rest.len() implies plain_name(#[trigger] rest[i].0) && rest[i].0 != name
            && quote_free(rest[i].1) by {
            assert(rest[i] == l[i + 1]);
        }
        lemma_fields_no_key(rest, y, name, colon);
        assert(plain_name(l[0].0) && l[0].0 != name && quote_free(l[0].1));
        let f = field(l[0].0, l[0].1);
        lemma_field_no_key(l[0].0, l[0].1, fields(rest) + y, name, colon);
        lemma_no_occ_concat(f, fields(rest) + y, key_pattern(name, colon), fields(rest).len() as int);
        assert(f + (fields(rest) + y) =~= fields(l) + y);
    }
}

pub proof fn lemma_fields_append(a: Seq<(Seq<char>, Seq<char>)>, b: Seq<(Seq<char>, Seq<char>)>)
    ensures
        fields(a + b) == fields(a) + fields(b),
    decreases a.len(),
{
    if a.len() == 0 {
        assert(a + b =~= b);
        assert(fields(a) + fields(b) =~= fields(b));
    } else {
        lemma_fields_append(a.drop_first(), b);
        assert((a + b).drop_first() =~= a.drop_first() + b);
        assert((a + b)[0] == a[0]);
        assert(field(a[0].0, a[0].1) + (fields(a.drop_first()) + fields(b)) =~= fields(a) + fields(b));
    }
}

pub proof fn lemma_fields_one(k: Seq<char>, v: Seq<char>)
    ensures
        fields(seq![(k, v)]) == field(k, v),
{
    let l = seq![(k, v)];
    assert(l.drop_first() =~= Seq::<(Seq<char>, Seq<char>)>::empty());
    assert(fields(l.drop_first()) == Seq::<char>::empty());
    assert(l[0] == (k, v));
    assert(fields(l) == field(k, v) + fields(l.drop_first()));
    assert(field(k, v) + Seq::<char>::empty() =~= field(k, v));
}

// ---------------------------------------------------------------------------
// The fields that follow the command
// ---------------------------------------------------------------------------

/// The process id and exit status fields, where they are written.
pub open spec fn pid_status_fields(status: Option<i32>, pid: Option<u32>) -> Seq<(Seq<char>, Seq<char>)> {
    (match pid {
        Some(p) => if p > 0 {
            seq![("pid"@, decimal(p as nat))]
        } else {
            Seq::empty()
        },
        None => Seq::empty(),
    }) + (match status {
        Some(c) => seq![("status"@, signed_decimal(c as int))],
        None => Seq::empty(),
    })
}

/// The selection fields.
pub open spec fn selection_fields(active: Option<usize>, expanded: Option<usize>, scroll: usize) -> Seq<
    (Seq<char>, Seq<char>),
> {
    seq![
        ("active_match_idx"@, number_or_null(active)),
        ("expanded_match_idx"@, number_or_null(expanded)),
        ("expanded_scroll"@, decimal(scroll as nat)),
    ]
}

pub proof fn lemma_names_plain()
    ensures
        plain_name("command"@),
        plain_name("pid"@),
        plain_name("status"@),
        plain_name("active_match_idx"@),
        plain_name("expanded_match_idx"@),
        plain_name("expanded_scroll"@),
        plain_name("error"@),
        plain_name("matches"@),
        plain_name("index"@),
        plain_name("source"@),
        plain_name("explanation"@),
{
    reveal_strlit("command");
    reveal_strlit("pid");
    reveal_strlit("status");
    reveal_strlit("active_match_idx");
    reveal_strlit("expanded_match_idx");
    reveal_strlit("expanded_scroll");
    reveal_strlit("error");
    reveal_strlit("matches");
    reveal_strlit("index");
    reveal_strlit("source");
    reveal_strlit("explanation");
}

/// The key names differ from one another.
pub proof fn lemma_names_differ()
    ensures
        "command"@ != "error"@,
        "command"@ != "active_match_idx"@,
        "command"@ != "expanded_match_idx"@,
        "command"@ != "expanded_scroll"@,
        "command"@ != "matches"@,
        "pid"@ != "error"@,
        "pid"@ != "active_match_idx"@,
        "pid"@ != "expanded_match_idx"@,
        "pid"@ != "expanded_scroll"@,
        "pid"@ != "matches"@,
        "status"@ != "error"@,
        "status"@ != "active_match_idx"@,
        "status"@ != "expanded_match_idx"@,
        "status"@ != "expanded_scroll"@,
        "status"@ != "matches"@,
        "active_match_idx"@ != "error"@,
        "active_match_idx"@ != "expanded_match_idx"@,
        "active_match_idx"@ != "expanded_scroll"@,
        "active_match_idx"@ != "matches"@,
        "expanded_match_idx"@ != "error"@,
        "expanded_match_idx"@ != "expanded_scroll"@,
        "expanded_match_idx"@ != "matches"@,
        "expanded_scroll"@ != "error"@,
        "expanded_scroll"@ != "matches"@,
        "matches"@ != "error"@,
        "index"@ != "source"@,
        "index"@ != "explanation"@,
        "index"@ != "error"@,
        "source"@ != "explanation"@,
        "source"@ != "error"@,
        "explanation"@ != "error"@,
        "matches"@ != "index"@,
        "matches"@ != "source"@,
        "matches"@ != "explanation"@,
{
    reveal_strlit("command");
    reveal_strlit("pid");
    reveal_strlit("status");
    reveal_strlit("active_match_idx");
    reveal_strlit("expanded_match_idx");
    reveal_strlit("expanded_scroll");
    reveal_strlit("error");
    reveal_strlit("matches");
    reveal_strlit("index");
    reveal_strlit("source");
    reveal_strlit("explanation");
    assert("command"@[0] != "error"@[0]);
    assert("command"@[0] != "active_match_idx"@[0]);
    assert("command"@[0] != "expanded_match_idx"@[0]);
    assert("command"@[0] != "expanded_scroll"@[0]);
    assert("command"@[0] != "matches"@[0]);
    assert("pid"@[0] != "error"@[0]);
    assert("pid"@[0] != "active_match_idx"@[0]);
    assert("pid"@[0] != "expanded_match_idx"@[0]);
    assert("pid"@[0] != "expanded_scroll"@[0]);
    assert("pid"@[0] != "matches"@[0]);
    assert("status"@[0] != "error"@[0]);
    assert("status"@[0] != "active_match_idx"@[0]);
    assert("status"@[0] != "expanded_match_idx"@[0]);
    assert("status"@[0] != "expanded_scroll"@[0]);
    assert("status"@[0] != "matches"@[0]);
    assert("active_match_idx"@[0] != "error"@[0]);
    assert("active_match_idx"@[0] != "expanded_match_idx"@[0]);
    assert("active_match_idx"@[0] != "expanded_scroll"@[0]);
    assert("active_match_idx"@[0] != "matches"@[0]);
    assert("expanded_match_idx"@.len() != "error"@.len());
    assert("expanded_match_idx"@.len() != "expanded_scroll"@.len());
    assert("expanded_match_idx"@[0] != "matches"@[0]);
    assert("expanded_scroll"@.len() != "error"@.len());
    assert("expanded_scroll"@[0] != "matches"@[0]);
    assert("matches"@[0] != "error"@[0]);
    assert("index"@[0] != "source"@[0]);
    assert("index"@[0] != "explanation"@[0]);
    assert("index"@[0] != "error"@[0]);
    assert("source"@[0] != "explanation"@[0]);
    assert("source"@[0] != "error"@[0]);
    assert("explanation"@.len() != "error"@.len());
    assert("matches"@[0] != "index"@[0]);
    assert("matches"@[0] != "source"@[0]);
    assert("matches"@[0] != "explanation"@[0]);
}

pub proof fn lemma_fields_three(
    a: (Seq<char>, Seq<char>),
    b: (Seq<char>, Seq<char>),
    c: (Seq<char>, Seq<char>),
)
    ensures
        fields(seq![a, b, c]) == field(a.0, a.1) + field(b.0, b.1) + field(c.0, c.1),
{
    lemma_fields_one(c.0, c.1);
    let l = seq![a, b, c];
    assert(l.drop_first() =~= seq![b, c]);
    assert(seq![b, c].drop_first() =~= seq![c]);
    assert(fields(seq![b, c]) == field(b.0, b.1) + fields(seq![c]));
    assert(fields(l) == field(a.0, a.1) + fields(seq![b, c]));
    assert(field(a.0, a.1) + (field(b.0, b.1) + field(c.0, c.1)) =~= field(a.0, a.1) + field(b.0, b.1) + field(
        c.0,
        c.1,
    ));
}

/// The fields after the command, as the writer lays them out.
pub open spec fn meta_fields(
    active: Option<usize>,
    expanded: Option<usize>,
    scroll: usize,
    status: Option<i32>,
    pid: Option<u32>,
) -> Seq<(Seq<char>, Seq<char>)> {
    pid_status_fields(status, pid) + selection_fields(active, expanded, scroll)
}

pub proof fn lemma_pid_status_fields(status: Option<i32>, pid: Option<u32>)
    ensures
        json_pid_status(status, pid) == fields(pid_status_fields(status, pid)),
{
    reveal_strlit(",\n  \"pid\": ");
    reveal_strlit(",\n  \"status\": ");
    reveal_strlit(",\n  ");
    reveal_strlit(": ");
    reveal_strlit("pid");
    reveal_strlit("status");
    let pl: Seq<(Seq<char>, Seq<char>)> = match pid {
        Some(p) => if p > 0 {
            seq![("pid"@, decimal(p as nat))]
        } else {
            Seq::empty()
        },
        None => Seq::empty(),
    };
    let sl: Seq<(Seq<char>, Seq<char>)> = match status {
        Some(c) => seq![("status"@, signed_decimal(c as int))],
        None => Seq::empty(),
    };
    assert(pid_status_fields(status, pid) == pl + sl);
    lemma_fields_append(pl, sl);
    match pid {
        Some(p) => if p > 0 {
            lemma_fields_one("pid"@, decimal(p as nat));
            assert(field("pid"@, decimal(p as nat)) =~= ",\n  \"pid\": "@ + decimal(p as nat));
        } else {
        },
        None => {},
    }
    match status {
        Some(c) => {
            lemma_fields_one("status"@, signed_decimal(c as int));
            assert(field("status"@, signed_decimal(c as int)) =~= ",\n  \"status\": "@ + signed_decimal(c as int));
        },
        None => {},
    }
    assert(json_pid_status(status, pid) =~= fields(pl) + fields(sl));
}

pub proof fn lemma_selection_fields(active: Option<usize>, expanded: Option<usize>, scroll: usize)
    ensures
        fields(selection_fields(active, expanded, scroll)) == ",\n  \"active_match_idx\": "@ + number_or_null(
            active,
        ) + ",\n  \"expanded_match_idx\": "@ + number_or_null(expanded) + ",\n  \"expanded_scroll\": "@ + decimal(
            scroll as nat,
        ),
{
    reveal_strlit(",\n  \"active_match_idx\": ");
    reveal_strlit(",\n  \"expanded_match_idx\": ");
    reveal_strlit(",\n  \"expanded_scroll\": ");
    reveal_strlit(",\n  ");
    reveal_strlit(": ");
    reveal_strlit("active_match_idx");
    reveal_strlit("expanded_match_idx");
    reveal_strlit("expanded_scroll");
    let na = number_or_null(active);
    let nx = number_or_null(expanded);
    let dc = decimal(scroll as nat);
    lemma_fields_three(("active_match_idx"@, na), ("expanded_match_idx"@, nx), ("expanded_scroll"@, dc));
    assert(field("active_match_idx"@, na) =~= ",\n  \"active_match_idx\": "@ + na);
    assert(field("expanded_match_idx"@, nx) =~= ",\n  \"expanded_match_idx\": "@ + nx);
    assert(field("expanded_scroll"@, dc) =~= ",\n  \"expanded_scroll\": "@ + dc);
    assert(field("active_match_idx"@, na) + field("expanded_match_idx"@, nx) + field("expanded_scroll"@, dc) =~= 
        ",\n  \"active_match_idx\": "@ + na + ",\n  \"expanded_match_idx\": "@ + nx + ",\n  \"expanded_scroll\": "@ + dc);
}

pub proof fn lemma_meta_fields(
    active: Option<usize>,
    expanded: Option<usize>,
    scroll: usize,
    status: Option<i32>,
    pid: Option<u32>,
)
    ensures
        json_meta(active, expanded, scroll, status, pid) == fields(meta_fields(active, expanded, scroll, status, pid)),
{
    lemma_pid_status_fields(status, pid);
    lemma_selection_fields(active, expanded, scroll);
    lemma_fields_append(pid_status_fields(status, pid), selection_fields(active, expanded, scroll));
    let ps = json_pid_status(status, pid);
    let sel = fields(selection_fields(active, expanded, scroll));
    assert(json_meta(active, expanded, scroll, status, pid) =~= ps + sel);
}

pub proof fn lemma_number_or_null_quote_free(o: Option<usize>)
    ensures
        quote_free(number_or_null(o)),
{
    reveal_strlit("null");
    match o {
        Some(i) => {
            lemma_decimal_digits(i as nat);
            lemma_digits_quote_free(decimal(i as nat));
        },
        None => {},
    }
}

/// The fields after the command have plain keys other than `name`, and no
/// quotes in their values, when `name` is none of their keys.
pub proof fn lemma_meta_apart(
    active: Option<usize>,
    expanded: Option<usize>,
    scroll: usize,
    status: Option<i32>,
    pid: Option<u32>,
    name: Seq<char>,
    take: int,
)
    requires
        0 <= take <= 3,
        name != "pid"@,
        name != "status"@,
        take > 0 ==> name != "active_match_idx"@,
        take > 1 ==> name != "expanded_match_idx"@,
        take > 2 ==> name != "expanded_scroll"@,
    ensures
        fields_apart(pid_status_fields(status, pid) + selection_fields(active, expanded, scroll).take(take), name),
{
    lemma_names_plain();
    let l = pid_status_fields(status, pid) + selection_fields(active, expanded, scroll).take(take);
    lemma_number_or_null_quote_free(active);
    lemma_number_or_null_quote_free(expanded);
    lemma_decimal_digits(scroll as nat);
    lemma_digits_quote_free(decimal(scroll as nat));
    match pid {
        Some(p) => {
            lemma_decimal_digits(p as nat);
            lemma_digits_quote_free(decimal(p as nat));
        },
        None => {},
    }
    match status {
        Some(c) => {
            if c < 0 {
                lemma_decimal_digits((-c) as nat);
                lemma_digits_quote_free(decimal((-c) as nat));
                lemma_quote_free_concat(seq!['-'], decimal((-c) as nat));
            } else {
                lemma_decimal_digits(c as nat);
                lemma_digits_quote_free(decimal(c as nat));
            }
        },
        None => {},
    }
    assert forall|i: int| 0 <= i < l.len() implies plain_name(#[trigger] l[i].0) && l[i].0 != name && quote_free(
        l[i].1,
    ) by {}
}

// ---------------------------------------------------------------------------
// The command
// ---------------------------------------------------------------------------

/// The opening of the JSON text up to the command's value.
pub open spec fn command_part(command: Seq<char>) -> Seq<char> {
    "{\n  "@ + quoted("command"@) + ": "@ + quoted(escaped(command))
}

/// No key other than the command's starts in the opening, when the command
/// cannot be taken for it.
pub proof fn lemma_command_no_key(command: Seq<char>, y: Seq<char>, name: Seq<char>, colon: bool)
    requires
        plain_name(name),
        name != "command"@,
        colon || !mistakable_for(command, name),
        y.len() > 0,
        y[0] == ',',
    ensures
        no_occ_before(command_part(command) + y, key_pattern(name, colon), command_part(command).len() as int),
{
    reveal_strlit("{\n  ");
    reveal_strlit(": ");
    lemma_names_plain();
    let k = key_pattern(name, colon);
    let a = "{\n  "@;
    let v = quoted(escaped(command));
    let c = v + y;
    let b = quoted("command"@) + ": "@ + c;
    lemma_value_no_key(command, y, name, colon);
    assert(quote_free(": "@));
    lemma_other_key_no_key("command"@, ": "@, c, name, colon);
    lemma_no_occ_concat(quoted("command"@) + ": "@, c, k, v.len() as int);
    assert(quoted("command"@) + ": "@ + c =~= b);
    lemma_no_quote_no_key(a, b, name, colon);
    lemma_no_occ_concat(a, b, k, (quoted("command"@) + ": "@ + v).len() as int);
    assert(a + b =~= command_part(command) + y);
}

/// The command reads back as written.
pub proof fn lemma_read_command(command: Seq<char>, r: Seq<char>)
    ensures
        string_field(command_part(command) + r, quoted("command"@)) == Some(command),
{
    reveal_strlit("{\n  ");
    let p = "{\n  "@;
    let rest = quoted("command"@) + ": "@ + quoted(escaped(command)) + r;
    lemma_no_quote_no_key(p, rest, "command"@, false);
    assert(p + rest =~= p + quoted("command"@) + ": "@ + quoted(escaped(command)) + r);
    assert(command_part(command) + r =~= p + quoted("command"@) + ": "@ + quoted(escaped(command)) + r);
    lemma_string_field(p, "command"@, command, r);
}

/// No key of `name` starts before the end of the fields, after the command.
pub proof fn lemma_head_no_key(
    command: Seq<char>,
    l: Seq<(Seq<char>, Seq<char>)>,
    y: Seq<char>,
    name: Seq<char>,
    colon: bool,
)
    requires
        plain_name(name),
        name != "command"@,
        colon || !mistakable_for(command, name),
        fields_apart(l, name),
        y.len() > 0,
        y[0] == ',',
    ensures
        no_occ_before(command_part(command) + fields(l) + y, key_pattern(name, colon), (command_part(command)
            + fields(l)).len() as int),
{
    let k = key_pattern(name, colon);
    lemma_fields_no_key(l, y, name, colon);
    let b = fields(l) + y;
    assert(b[0] == ',');
    lemma_command_no_key(command, b, name, colon);
    lemma_no_occ_concat(command_part(command), b, k, fields(l).len() as int);
    assert(command_part(command) + b =~= command_part(command) + fields(l) + y);
}

/// A number field reads back as written.
pub proof fn lemma_read_number(
    command: Seq<char>,
    pre: Seq<(Seq<char>, Seq<char>)>,
    name: Seq<char>,
    o: Option<usize>,
    post: Seq<(Seq<char>, Seq<char>)>,
    after: Seq<char>,
)
    requires
        plain_name(name),
        name != "command"@,
        !mistakable_for(command, name),
        fields_apart(pre, name),
        fields_apart(post, name),
        after.len() > 0,
        after[0] == ',',
    ensures
        usize_field(
            command_part(command) + fields(pre + seq![(name, number_or_null(o))] + post) + after,
            quoted(name),
        ) == o,
{
    reveal_strlit(",\n  ");
    let v = number_or_null(o);
    let sep = ",\n  "@;
    lemma_fields_append(pre, seq![(name, v)]);
    lemma_fields_append(pre + seq![(name, v)], post);
    lemma_fields_one(name, v);
    lemma_fields_no_key(post, after, name, false);
    let r = fields(post) + after;
    assert(r[0] == ',');
    let y = sep + quoted(name) + ": "@ + v + r;
    lemma_head_no_key(command, pre, y, name, false);
    let p = command_part(command) + fields(pre) + sep;
    assert(command_part(command) + fields(pre) + y =~= p + quoted(name) + ": "@ + v + r);
    assert(command_part(command) + fields(pre + seq![(name, v)] + post) + after =~= p + quoted(name) + ": "@ + v
        + r);
    assert(no_occ_before(p + quoted(name) + ": "@ + v + r, quoted(name), p.len() as int)) by {
        assert forall|j: int| 0 <= j < p.len() implies !#[trigger] occurs_at(
            p + quoted(name) + ": "@ + v + r,
            quoted(name),
            j,
        ) by {
            if j >= (command_part(command) + fields(pre)).len() {
                let s = p + quoted(name) + ": "@ + v + r;
                if occurs_at(s, quoted(name), j) {
                    assert(s.subrange(j, j + quoted(name).len())[0] == s[j]);
                    assert(s[j] == sep[j - (command_part(command) + fields(pre)).len()]);
                }
            }
        }
    }
    lemma_number_field(p, name, o, r);
}

// ---------------------------------------------------------------------------
// One match object
// ---------------------------------------------------------------------------

/// The object of one match, from its opening brace to its closing one.
pub open spec fn object_text(m: MatchView) -> Seq<char> {
    seq!['{'] + ("\n      "@ + (quoted("index"@) + ((": "@ + decimal(m.0 as nat) + ",\n      "@) + (quoted("source"@) + (
    ": "@ + (quoted(escaped(m.1)) + (",\n      "@ + (quoted("explanation"@) + (": "@ + (quoted(escaped(m.2)) + (
    "\n    "@ + seq!['}'])))))))))))
}

pub proof fn lemma_block_object(m: MatchView)
    ensures
        match_block(m) == "    "@ + object_text(m),
{
    reveal_strlit("    {\n      \"index\": ");
    reveal_strlit(",\n      \"source\": \"");
    reveal_strlit("\",\n      \"explanation\": \"");
    reveal_strlit("\"\n    }");
    reveal_strlit("\n      ");
    reveal_strlit(": ");
    reveal_strlit(",\n      ");
    reveal_strlit("\n    ");
    reveal_strlit("    ");
    reveal_strlit("index");
    reveal_strlit("source");
    reveal_strlit("explanation");
    assert(match_block(m) =~= "    "@ + object_text(m));
}

/// Splits a text known at a position into its two parts.
pub proof fn lemma_peel(s: Seq<char>, i: int, a: Seq<char>, b: Seq<char>)
    requires
        0 <= i,
        i + a.len() + b.len() <= s.len(),
        s.subrange(i, i + a.len() + b.len()) == a + b,
    ensures
        s.subrange(i, i + a.len()) == a,
        s.subrange(i + a.len(), i + a.len() + b.len()) == b,
{
    assert(s.subrange(i, i + a.len()) =~= (a + b).subrange(0, a.len() as int));
    assert(s.subrange(i + a.len(), i + a.len() + b.len()) =~= (a + b).subrange(a.len() as int, (a + b).len() as int));
}

/// Text without quotes and braces.
pub open spec fn bare(t: Seq<char>) -> bool {
    forall|k: int| 0 <= k < t.len() ==> #[trigger] t[k] != '"' && t[k] != '{' && t[k] != '}'
}

/// The scan steps over bare text at `i`.
pub proof fn lemma_scan_bare(s: Seq<char>, i: int, t: Seq<char>, depth: int)
    requires
        0 <= i,
        i + t.len() <= s.len(),
        s.subrange(i, i + t.len()) == t,
        bare(t),
    ensures
        object_end(s, i, depth, false, false) == object_end(s, i + t.len(), depth, false, false),
{
    assert forall|k: int| i <= k < i + t.len() implies #[trigger] s[k] != '"' && s[k] != '{' && s[k] != '}' by {
        assert(s[k] == s.subrange(i, i + t.len())[k - i]);
    }
    crate::exchange::lemma_object_end_plain(s, i, i + t.len(), depth);
}

/// The scan steps over a quoted, escaped text at `i`.
pub proof fn lemma_scan_string(s: Seq<char>, i: int, t: Seq<char>, depth: int)
    requires
        0 <= i,
        i + quoted(escaped(t)).len() <= s.len(),
        s.subrange(i, i + quoted(escaped(t)).len()) == quoted(escaped(t)),
    ensures
        object_end(s, i, depth, false, false) == object_end(s, i + quoted(escaped(t)).len(), depth, false, false),
{
    let e = escaped(t);
    assert(s[i] == s.subrange(i, i + quoted(e).len())[0]);
    assert(s.subrange(i + 1, i + 1 + e.len() + 1) =~= s.subrange(i, i + quoted(e).len()).subrange(
        1,
        quoted(e).len() as int,
    ));
    assert(quoted(e).subrange(1, quoted(e).len() as int) =~= e + seq!['"']);
    lemma_object_end_string(s, i + 1, t, depth);
}

pub proof fn lemma_bare_literals(d: Seq<char>)
    requires
        forall|k: int| 0 <= k < d.len() ==> is_digit(#[trigger] d[k]),
    ensures
        bare("\n      "@),
        bare(": "@ + d + ",\n      "@),
        bare(": "@),
        bare(",\n      "@),
        bare("\n    "@),
{
    reveal_strlit("\n      ");
    reveal_strlit(": ");
    reveal_strlit(",\n      ");
    reveal_strlit("\n    ");
    let t = ": "@ + d + ",\n      "@;
    assert forall|k: int| 0 <= k < t.len() implies #[trigger] t[k] != '"' && t[k] != '{' && t[k] != '}' by {
        if 2 <= k < 2 + d.len() {
            assert(t[k] == d[k - 2]);
            assert(is_digit(d[k - 2]));
        }
    }
}

/// The scan from the opening brace of a match object ends at its closing
/// brace.
pub proof fn lemma_object_text_end(s: Seq<char>, os: int, m: MatchView)
    requires
        0 <= os,
        os + object_text(m).len() <= s.len(),
        s.subrange(os, os + object_text(m).len()) == object_text(m),
    ensures
        object_end(s, os, 0, false, false) == Some(os + object_text(m).len() - 1),
{
    lemma_names_plain();
    crate::exchange::lemma_escaped_name("index"@);
    crate::exchange::lemma_escaped_name("source"@);
    crate::exchange::lemma_escaped_name("explanation"@);
    let d = decimal(m.0 as nat);
    lemma_decimal_digits(m.0 as nat);
    lemma_bare_literals(d);
    let p0 = seq!['{'];
    let p1 = "\n      "@;
    let p2 = quoted("index"@);
    let p3 = ": "@ + d + ",\n      "@;
    let p4 = quoted("source"@);
    let p5 = ": "@;
    let p6 = quoted(escaped(m.1));
    let p7 = ",\n      "@;
    let p8 = quoted("explanation"@);
    let p9 = ": "@;
    let p10 = quoted(escaped(m.2));
    let p11 = "\n    "@;
    let p12 = seq!['}'];
    let r11 = p11 + p12;
    let r10 = p10 + r11;
    let r9 = p9 + r10;
    let r8 = p8 + r9;
    let r7 = p7 + r8;
    let r6 = p6 + r7;
    let r5 = p5 + r6;
    let r4 = p4 + r5;
    let r3 = p3 + r4;
    let r2 = p2 + r3;
    let r1 = p1 + r2;
    assert(object_text(m) == p0 + r1);
    lemma_peel(s, os, p0, r1);
    let i1 = os + 1;
    assert(s[os] == s.subrange(os, os + 1)[0]);
    assert(object_end(s, os, 0, false, false) == object_end(s, i1, 1, false, false));
    lemma_peel(s, i1, p1, r2);
    lemma_scan_bare(s, i1, p1, 1);
    let i2 = i1 + p1.len();
    lemma_peel(s, i2, p2, r3);
    lemma_scan_string(s, i2, "index"@, 1);
    let i3 = i2 + p2.len();
    lemma_peel(s, i3, p3, r4);
    lemma_scan_bare(s, i3, p3, 1);
    let i4 = i3 + p3.len();
    lemma_peel(s, i4, p4, r5);
    lemma_scan_string(s, i4, "source"@, 1);
    let i5 = i4 + p4.len();
    lemma_peel(s, i5, p5, r6);
    lemma_scan_bare(s, i5, p5, 1);
    let i6 = i5 + p5.len();
    lemma_peel(s, i6, p6, r7);
    lemma_scan_string(s, i6, m.1, 1);
    let i7 = i6 + p6.len();
    lemma_peel(s, i7, p7, r8);
    lemma_scan_bare(s, i7, p7, 1);
    let i8 = i7 + p7.len();
    lemma_peel(s, i8, p8, r9);
    lemma_scan_string(s, i8, "explanation"@, 1);
    let i9 = i8 + p8.len();
    lemma_peel(s, i9, p9, r10);
    lemma_scan_bare(s, i9, p9, 1);
    let i10 = i9 + p9.len();
    lemma_peel(s, i10, p10, r11);
    lemma_scan_string(s, i10, m.2, 1);
    let i11 = i10 + p10.len();
    lemma_peel(s, i11, p11, p12);
    lemma_scan_bare(s, i11, p11, 1);
    let i12 = i11 + p11.len();
    assert(s[i12] == s.subrange(i12, i12 + 1)[0]);
    assert(i12 == os + object_text(m).len() - 1);
}

/// The parts of a match object, in the order the writer lays them out.
pub proof fn lemma_object_parts(m: MatchView)
    ensures
        object_text(m) == "{\n      "@ + quoted("index"@) + ": "@ + decimal(m.0 as nat) + ",\n      "@ + quoted(
            "source"@,
        ) + ": "@ + quoted(escaped(m.1)) + ",\n      "@ + quoted("explanation"@) + ": "@ + quoted(escaped(m.2))
            + ("\n    "@ + seq!['}']),
{
    reveal_strlit("{\n      ");
    reveal_strlit("\n      ");
    assert("{\n      "@ =~= seq!['{'] + "\n      "@);
    assert(object_text(m) =~= "{\n      "@ + quoted("index"@) + ": "@ + decimal(m.0 as nat) + ",\n      "@
        + quoted("source"@) + ": "@ + quoted(escaped(m.1)) + ",\n      "@ + quoted("explanation"@) + ": "@ + quoted(
        escaped(m.2),
    ) + ("\n    "@ + seq!['}']));
}

/// What follows the index in a match object.
pub open spec fn after_index(m: MatchView) -> Seq<char> {
    ",\n      "@ + quoted("source"@) + ": "@ + quoted(escaped(m.1)) + ",\n      "@ + quoted("explanation"@) + ": "@
        + quoted(escaped(m.2)) + ("\n    "@ + seq!['}'])
}

proof fn lemma_object_index_parts(m: MatchView)
    ensures
        object_text(m) == "{\n      "@ + quoted("index"@) + ": "@ + decimal(m.0 as nat) + after_index(m),
        after_index(m)[0] == ',',
{
    lemma_object_parts(m);
    reveal_strlit(",\n      ");
    let d = decimal(m.0 as nat);
    let a = "{\n      "@;
    let sep = ",\n      "@;
    let r = quoted("source"@) + ": "@ + quoted(escaped(m.1)) + sep + quoted("explanation"@) + ": "@ + quoted(escaped(m.2))
        + ("\n    "@ + seq!['}']);
    assert(after_index(m) =~= sep + r);
    assert(a + quoted("index"@) + ": "@ + d + sep + r =~= a + quoted("index"@) + ": "@ + d + (sep + r));
}

proof fn lemma_object_index(m: MatchView)
    ensures
        usize_field(object_text(m), quoted("index"@)) == Some(m.0),
{
    reveal_strlit("{\n      ");
    lemma_object_index_parts(m);
    let d = decimal(m.0 as nat);
    let a = "{\n      "@;
    let fs = after_index(m);
    assert(number_or_null(Some(m.0)) == d);
    lemma_no_quote_no_key(a, quoted("index"@) + ": "@ + d + fs, "index"@, false);
    assert(a + (quoted("index"@) + ": "@ + d + fs) =~= a + quoted("index"@) + ": "@ + d + fs);
    lemma_number_field(a, "index"@, Some(m.0), fs);
}

proof fn lemma_object_source(m: MatchView)
    ensures
        string_field(object_text(m), quoted("source"@)) == Some(m.1),
{
    lemma_names_plain();
    lemma_names_differ();
    reveal_strlit("{\n      ");
    reveal_strlit(",\n      ");
    reveal_strlit(": ");
    lemma_object_parts(m);
    let d = decimal(m.0 as nat);
    lemma_decimal_digits(m.0 as nat);
    lemma_digits_quote_free(d);
    let a = "{\n      "@;
    let sep = ",\n      "@;
    let fe = sep + quoted("explanation"@) + ": "@ + quoted(escaped(m.2)) + ("\n    "@ + seq!['}']);
    let r1 = ": "@ + d + sep;
    assert(quote_free(": "@));
    assert(quote_free(sep));
    lemma_quote_free_concat(": "@, d);
    lemma_quote_free_concat(": "@ + d, sep);
    let y1 = quoted("source"@) + ": "@ + quoted(escaped(m.1)) + fe;
    lemma_other_key_no_key("index"@, r1, y1, "source"@, false);
    lemma_no_quote_no_key(a, quoted("index"@) + r1 + y1, "source"@, false);
    lemma_no_occ_concat(a, quoted("index"@) + r1 + y1, quoted("source"@), (quoted("index"@) + r1).len() as int);
    let p1 = a + quoted("index"@) + r1;
    assert(a + (quoted("index"@) + r1 + y1) =~= p1 + quoted("source"@) + ": "@ + quoted(escaped(m.1)) + fe);
    assert(object_text(m) =~= p1 + quoted("source"@) + ": "@ + quoted(escaped(m.1)) + fe);
    lemma_string_field(p1, "source"@, m.1, fe);
}

/// The part of a match object before the key of the explanation.
pub open spec fn explanation_prefix(d: Seq<char>, source: Seq<char>) -> Seq<char> {
    "{\n      "@ + quoted("index"@) + (": "@ + d + ",\n      "@) + quoted("source"@) + ": "@ + quoted(escaped(source))
        + ",\n      "@
}

proof fn lemma_explanation_prefix(d: Seq<char>, source: Seq<char>, y: Seq<char>, name: Seq<char>, colon: bool)
    requires
        quote_free(d),
        plain_name(name),
        name != "index"@,
        name != "source"@,
        colon || !mistakable_for(source, name),
    ensures
        no_occ_before(
            explanation_prefix(d, source) + y,
            key_pattern(name, colon),
            explanation_prefix(d, source).len() as int,
        ),
{
    lemma_names_plain();
    reveal_strlit("{\n      ");
    reveal_strlit(",\n      ");
    reveal_strlit(": ");
    let a = "{\n      "@;
    let sep = ",\n      "@;
    let vs = quoted(escaped(source));
    let k = key_pattern(name, colon);
    let r1 = ": "@ + d + sep;
    assert(quote_free(": "@));
    assert(quote_free(sep));
    lemma_quote_free_concat(": "@, d);
    lemma_quote_free_concat(": "@ + d, sep);
    lemma_no_quote_no_key(sep, y, name, colon);
    assert(sep[0] == ',');
    lemma_value_no_key(source, sep + y, name, colon);
    lemma_no_occ_concat(vs, sep + y, k, sep.len() as int);
    lemma_other_key_no_key("source"@, ": "@, vs + (sep + y), name, colon);
    lemma_no_occ_concat(quoted("source"@) + ": "@, vs + (sep + y), k, (vs + sep).len() as int);
    let z = quoted("source"@) + ": "@ + (vs + (sep + y));
    lemma_other_key_no_key("index"@, r1, z, name, colon);
    lemma_no_occ_concat(quoted("index"@) + r1, z, k, (quoted("source"@) + ": "@ + vs + sep).len() as int);
    let w = quoted("index"@) + r1 + z;
    lemma_no_quote_no_key(a, w, name, colon);
    lemma_no_occ_concat(a, w, k, (quoted("index"@) + r1 + quoted("source"@) + ": "@ + vs + sep).len() as int);
    assert(a + w =~= explanation_prefix(d, source) + y);
}

proof fn lemma_object_explanation(m: MatchView)
    requires
        !mistakable_for(m.1, "explanation"@),
    ensures
        string_field(object_text(m), quoted("explanation"@)) == Some(m.2),
{
    lemma_object_parts(m);
    let d = decimal(m.0 as nat);
    lemma_decimal_digits(m.0 as nat);
    lemma_digits_quote_free(d);
    let k = quoted("explanation"@);
    let tail = "\n    "@ + seq!['}'];
    let p2 = explanation_prefix(d, m.1);
    let y = k + ": "@ + quoted(escaped(m.2)) + tail;
    lemma_names_plain();
    lemma_names_differ();
    lemma_explanation_prefix(d, m.1, y, "explanation"@, false);
    assert(p2 + y =~= p2 + k + ": "@ + quoted(escaped(m.2)) + tail);
    assert(object_text(m) =~= p2 + k + ": "@ + quoted(escaped(m.2)) + tail);
    lemma_string_field(p2, "explanation"@, m.2, tail);
}

/// A match object reads back as written, when its source cannot be taken
/// for the key of the explanation.
pub proof fn lemma_read_object(m: MatchView)
    requires
        !mistakable_for(m.1, "explanation"@),
    ensures
        object_match(object_text(m)) == (m.0, m.1, m.2),
{
    reveal_strlit("\"index\"");
    reveal_strlit("\"source\"");
    reveal_strlit("\"explanation\"");
    reveal_strlit("index");
    reveal_strlit("source");
    reveal_strlit("explanation");
    assert("\"index\""@ =~= quoted("index"@));
    assert("\"source\""@ =~= quoted("source"@));
    assert("\"explanation\""@ =~= quoted("explanation"@));
    lemma_object_index(m);
    lemma_object_source(m);
    lemma_object_explanation(m);
}

// ---------------------------------------------------------------------------
// The list of matches
// ---------------------------------------------------------------------------

/// The matches as the pane reads them: index, source and explanation.
pub open spec fn read_views(ms: Seq<MatchView>) -> Seq<ParsedMatchView> {
    Seq::new(ms.len(), |k: int| (ms[k].0, ms[k].1, ms[k].2))
}

/// The match objects without highlight, taken from the front.
pub proof fn lemma_joined_front(ms: Seq<MatchView>)
    requires
        ms.len() >= 2,
    ensures
        joined_entries(ms, None) == match_block(ms[0]) + ",\n"@ + joined_entries(ms.drop_first(), None),
    decreases ms.len(),
{
    let n = ms.len();
    assert(forall|m: MatchView| match_entry(m, None) == match_block(m));
    let a = ms.drop_last();
    let b = ms.drop_first();
    assert(a[0] == ms[0]);
    assert(b.last() == ms.last());
    if n == 2 {
        assert(joined_entries(a, None) == match_block(ms[0]));
        assert(joined_entries(b, None) == match_block(b[0]));
        assert(b[0] == ms.last());
    } else {
        lemma_joined_front(a);
        assert(a.drop_first() =~= b.drop_last());
        assert(joined_entries(b, None) == joined_entries(b.drop_last(), None) + ",\n"@ + match_block(b.last()));
        assert(match_block(ms[0]) + ",\n"@ + joined_entries(b.drop_last(), None) + ",\n"@ + match_block(ms.last())
            =~= match_block(ms[0]) + ",\n"@ + joined_entries(b, None));
    }
}

/// Text without an opening brace.
pub open spec fn no_brace(t: Seq<char>) -> bool {
    forall|k: int| 0 <= k < t.len() ==> #[trigger] t[k] != '{'
}

proof fn lemma_no_object(s: Seq<char>, i: int, t: Seq<char>)
    requires
        0 <= i <= s.len(),
        s.subrange(i, s.len() as int) == t,
        no_brace(t),
    ensures
        matches_from(s, i) == Seq::<ParsedMatchView>::empty(),
{
    let br = seq!['{'];
    assert forall|j: int| i <= j < s.len() implies !#[trigger] occurs_at(s, br, j) by {
        if occurs_at(s, br, j) {
            assert(s.subrange(j, j + 1)[0] == s[j]);
            assert(s[j] == t[j - i]);
        }
    }
    lemma_find_none(s, br, i);
}

pub proof fn lemma_sub_sub(s: Seq<char>, i: int, a: int, b: int)
    requires
        0 <= i <= s.len(),
        0 <= a <= b <= s.len() - i,
    ensures
        s.subrange(i, s.len() as int).subrange(a, b) == s.subrange(i + a, i + b),
{
    assert(s.subrange(i, s.len() as int).subrange(a, b) =~= s.subrange(i + a, i + b));
}

proof fn lemma_first_object(s: Seq<char>, i: int, w: Seq<char>, m: MatchView, y: Seq<char>)
    requires
        0 <= i <= s.len(),
        s.subrange(i, s.len() as int) == w + "    "@ + object_text(m) + y,
        no_brace(w),
    ensures
        find_from(s, seq!['{'], i) == Some(i + w.len() + 4),
        object_end(s, i + w.len() + 4, 0, false, false) == Some(i + w.len() + 4 + object_text(m).len() - 1),
        s.subrange(i + w.len() + 4, i + w.len() + 4 + object_text(m).len()) == object_text(m),
        i + w.len() + 4 + object_text(m).len() <= s.len(),
        s.subrange(i + w.len() + 4 + object_text(m).len(), s.len() as int) == y,
{
    reveal_strlit("    ");
    let sp = "    "@;
    assert(sp.len() == 4);
    let x = s.subrange(i, s.len() as int);
    let br = seq!['{'];
    let o = object_text(m);
    let os = i + w.len() + 4;
    let a: int = w.len() + 4int;
    assert(x.len() == w.len() + 4 + o.len() + y.len());
    assert(x.subrange(a, a + o.len()) =~= o);
    assert(x.subrange(a + o.len(), x.len() as int) =~= y);
    lemma_sub_sub(s, i, a, a + o.len());
    lemma_sub_sub(s, i, a + o.len(), x.len() as int);
    assert(o[0] == '{');
    assert(s.subrange(os, os + 1) =~= br) by {
        assert(s.subrange(os, os + 1)[0] == s.subrange(os, os + o.len())[0]);
    }
    assert forall|j: int| i <= j < os implies !#[trigger] occurs_at(s, br, j) by {
        if occurs_at(s, br, j) {
            assert(s.subrange(j, j + 1)[0] == s[j]);
            assert(s[j] == x[j - i]);
            if j - i < w.len() {
                assert(x[j - i] == w[j - i]);
            } else {
                assert(x[j - i] == sp[j - i - w.len()]);
            }
        }
    }
    lemma_find_at(s, br, i, os);
    lemma_object_text_end(s, os, m);
}

proof fn lemma_last_object(s: Seq<char>, i: int, w: Seq<char>, m: MatchView, t: Seq<char>)
    requires
        0 <= i <= s.len(),
        s.subrange(i, s.len() as int) == w + "    "@ + object_text(m) + t,
        no_brace(w),
        no_brace(t),
        !mistakable_for(m.1, "explanation"@),
    ensures
        matches_from(s, i) == seq![(m.0, m.1, m.2)],
{
    let o = object_text(m);
    let e = i + w.len() + 4 + o.len() - 1;
    lemma_first_object(s, i, w, m, t);
    lemma_read_object(m);
    lemma_no_object(s, e + 1, t);
    assert(seq![(m.0, m.1, m.2)] + Seq::<ParsedMatchView>::empty() =~= seq![(m.0, m.1, m.2)]);
}

proof fn lemma_next_object(s: Seq<char>, i: int, w: Seq<char>, m: MatchView, y: Seq<char>)
    requires
        0 <= i <= s.len(),
        s.subrange(i, s.len() as int) == w + "    "@ + object_text(m) + y,
        no_brace(w),
        !mistakable_for(m.1, "explanation"@),
    ensures
        i + w.len() + 4 + object_text(m).len() <= s.len(),
        s.subrange(i + w.len() + 4 + object_text(m).len(), s.len() as int) == y,
        matches_from(s, i) == seq![(m.0, m.1, m.2)] + matches_from(s, i + w.len() + 4 + object_text(m).len()),
{
    lemma_first_object(s, i, w, m, y);
    lemma_read_object(m);
}

/// The matches read from the list of match objects, after text without
/// braces and up to text without braces.
pub proof fn lemma_matches_from(s: Seq<char>, i: int, w: Seq<char>, ms: Seq<MatchView>, t: Seq<char>)
    requires
        0 <= i <= s.len(),
        s.subrange(i, s.len() as int) == w + joined_entries(ms, None) + t,
        no_brace(w),
        no_brace(t),
        forall|k: int| 0 <= k < ms.len() ==> !mistakable_for(#[trigger] ms[k].1, "explanation"@),
    ensures
        matches_from(s, i) == read_views(ms),
    decreases ms.len(),
{
    if ms.len() == 0 {
        assert(joined_entries(ms, None) == Seq::<char>::empty());
        assert(w + joined_entries(ms, None) + t =~= w + t);
        assert(no_brace(w + t)) by {
            assert forall|k: int| 0 <= k < (w + t).len() implies #[trigger] (w + t)[k] != '{' by {
                if k >= w.len() {
                    assert((w + t)[k] == t[k - w.len()]);
                }
            }
        }
        lemma_no_object(s, i, w + t);
        assert(read_views(ms) =~= Seq::<ParsedMatchView>::empty());
    } else {
        let m = ms[0];
        let o = object_text(m);
        lemma_block_object(m);
        if ms.len() == 1 {
            assert(joined_entries(ms, None) == match_block(m));
            assert(w + joined_entries(ms, None) + t =~= w + "    "@ + o + t);
            lemma_last_object(s, i, w, m, t);
            assert(read_views(ms) =~= seq![(m.0, m.1, m.2)]);
        } else {
            reveal_strlit(",\n");
            let rest = ms.drop_first();
            let w2 = ",\n"@;
            lemma_joined_front(ms);
            let y = w2 + joined_entries(rest, None) + t;
            assert(w + joined_entries(ms, None) + t =~= w + "    "@ + o + y);
            lemma_next_object(s, i, w, m, y);
            assert(no_brace(w2));
            assert forall|k: int| 0 <= k < rest.len() implies !mistakable_for(#[trigger] rest[k].1, "explanation"@) by {
                assert(rest[k] == ms[k + 1]);
            }
            lemma_matches_from(s, i + w.len() + 4 + o.len(), w2, rest, t);
            assert(seq![(m.0, m.1, m.2)] + read_views(rest) =~= read_views(ms));
        }
    }
}

/// Texts of a match that cannot be taken for the key `name`.
pub open spec fn match_apart(m: MatchView, name: Seq<char>) -> bool {
    !mistakable_for(m.1, name) && !mistakable_for(m.2, name)
}

/// No key other than those of a match object starts in it, when its texts
/// cannot be taken for the key.
pub proof fn lemma_object_no_key(m: MatchView, y: Seq<char>, name: Seq<char>, colon: bool)
    requires
        plain_name(name),
        name != "index"@,
        name != "source"@,
        name != "explanation"@,
        colon || match_apart(m, name),
    ensures
        no_occ_before(object_text(m) + y, key_pattern(name, colon), object_text(m).len() as int),
{
    lemma_names_plain();
    reveal_strlit(": ");
    reveal_strlit("\n    ");
    lemma_object_parts(m);
    let d = decimal(m.0 as nat);
    lemma_decimal_digits(m.0 as nat);
    lemma_digits_quote_free(d);
    let k = key_pattern(name, colon);
    let pre = explanation_prefix(d, m.1);
    let ve = quoted(escaped(m.2));
    let tail = "\n    "@ + seq!['}'];
    assert(quote_free(tail));
    lemma_no_quote_no_key(tail, y, name, colon);
    assert(tail[0] == '\n');
    lemma_value_no_key(m.2, tail + y, name, colon);
    lemma_no_occ_concat(ve, tail + y, k, tail.len() as int);
    assert(quote_free(": "@));
    lemma_other_key_no_key("explanation"@, ": "@, ve + (tail + y), name, colon);
    let z = quoted("explanation"@) + ": "@ + (ve + (tail + y));
    lemma_no_occ_concat(quoted("explanation"@) + ": "@, ve + (tail + y), k, (ve + tail).len() as int);
    lemma_explanation_prefix(d, m.1, z, name, colon);
    lemma_no_occ_concat(pre, z, k, (quoted("explanation"@) + ": "@ + ve + tail).len() as int);
    assert(pre + z =~= object_text(m) + y);
}

/// No such key starts in the match objects either.
pub proof fn lemma_joined_no_key(ms: Seq<MatchView>, y: Seq<char>, name: Seq<char>, colon: bool)
    requires
        plain_name(name),
        name != "index"@,
        name != "source"@,
        name != "explanation"@,
        forall|i: int| 0 <= i < ms.len() ==> colon || match_apart(#[trigger] ms[i], name),
    ensures
        no_occ_before(joined_entries(ms, None) + y, key_pattern(name, colon), joined_entries(ms, None).len() as int),
    decreases ms.len(),
{
    reveal_strlit("    ");
    reveal_strlit(",\n");
    let k = key_pattern(name, colon);
    if ms.len() > 0 {
        let m = ms.last();
        let b = match_block(m);
        lemma_block_object(m);
        assert(colon || match_apart(ms[ms.len() - 1], name));
        lemma_object_no_key(m, y, name, colon);
        lemma_no_quote_no_key("    "@, object_text(m) + y, name, colon);
        lemma_no_occ_concat("    "@, object_text(m) + y, k, object_text(m).len() as int);
        assert("    "@ + (object_text(m) + y) =~= b + y);
        if ms.len() == 1 {
            assert(joined_entries(ms, None) == b);
        } else {
            let a = ms.drop_last();
            assert forall|i: int| 0 <= i < a.len() implies colon || match_apart(#[trigger] a[i], name) by {
                assert(a[i] == ms[i]);
            }
            let sep = ",\n"@;
            let y2 = sep + b + y;
            lemma_joined_no_key(a, y2, name, colon);
            lemma_no_quote_no_key(sep, b + y, name, colon);
            lemma_no_occ_concat(sep, b + y, k, b.len() as int);
            assert(sep + (b + y) =~= y2);
            lemma_no_occ_concat(joined_entries(a, None), y2, k, (sep + b).len() as int);
            assert(joined_entries(ms, None) == joined_entries(a, None) + sep + match_entry(m, None));
            assert(joined_entries(a, None) + y2 =~= joined_entries(ms, None) + y);
        }
    }
}

// ---------------------------------------------------------------------------
// The end of the text
// ---------------------------------------------------------------------------

/// What follows the fields: the error, or the list of matches.
pub open spec fn closing_part(e: crate::explainshell::ExplanationView) -> Seq<char> {
    match e.2 {
        Some(err) => ",\n  "@ + quoted("error"@) + ": "@ + quoted(escaped(err)) + "\n}"@,
        None => ",\n  "@ + quoted("matches"@) + ": [\n"@ + joined_entries(e.3, None) + "\n  ]\n}"@,
    }
}

pub proof fn lemma_plain_shape(
    e: crate::explainshell::ExplanationView,
    active: Option<usize>,
    expanded: Option<usize>,
    scroll: usize,
    status: Option<i32>,
    pid: Option<u32>,
)
    ensures
        crate::highlight::plain_json(e, active, expanded, scroll, status, pid) == command_part(e.0) + fields(
            meta_fields(active, expanded, scroll, status, pid),
        ) + closing_part(e),
{
    lemma_meta_fields(active, expanded, scroll, status, pid);
    reveal_strlit("{\n  \"command\": \"");
    reveal_strlit("\"");
    reveal_strlit("{\n  ");
    reveal_strlit(": ");
    reveal_strlit("command");
    let meta = json_meta(active, expanded, scroll, status, pid);
    assert(crate::highlight::json_head(e.0, active, expanded, scroll, status, pid) =~= command_part(e.0) + meta);
    match e.2 {
        Some(err) => {
            reveal_strlit(",\n  \"error\": \"");
            reveal_strlit("\"\n}");
            reveal_strlit(",\n  ");
            reveal_strlit("\n}");
            reveal_strlit("error");
            assert(",\n  \"error\": \""@ + escaped(err) + "\"\n}"@ =~= closing_part(e));
        },
        None => {
            reveal_strlit(",\n  \"matches\": [\n");
            reveal_strlit(",\n  ");
            reveal_strlit(": [\n");
            reveal_strlit("matches");
            assert(",\n  \"matches\": [\n"@ =~= ",\n  "@ + quoted("matches"@) + ": [\n"@);
        },
    }
}

/// No key starts anywhere in a text.
pub open spec fn no_key(s: Seq<char>, k: Seq<char>) -> bool {
    no_occ_before(s, k, s.len() as int)
}

/// No key of `name` starts in what follows the fields, but where the list
/// of matches names its own key.
proof fn lemma_closing_no_key(e: crate::explainshell::ExplanationView, name: Seq<char>, colon: bool)
    requires
        plain_name(name),
        name != "index"@,
        name != "source"@,
        name != "explanation"@,
        match e.2 {
            Some(_) => name != "error"@,
            None => name != "matches"@,
        },
        match e.2 {
            Some(err) => colon || !mistakable_for(err, name),
            None => forall|i: int| 0 <= i < e.3.len() ==> colon || match_apart(#[trigger] e.3[i], name),
        },
    ensures
        no_key(closing_part(e), key_pattern(name, colon)),
{
    lemma_names_plain();
    reveal_strlit(",\n  ");
    reveal_strlit(": ");
    let k = key_pattern(name, colon);
    let sep = ",\n  "@;
    let z = Seq::<char>::empty();
    match e.2 {
        Some(err) => {
            reveal_strlit("\n}");
            let t = "\n}"@;
            let v = quoted(escaped(err));
            lemma_no_quote_no_key(t, z, name, colon);
            assert(t + z =~= t);
            assert(t[0] == '\n');
            lemma_value_no_key(err, t, name, colon);
            lemma_no_occ_concat(v, t, k, t.len() as int);
            assert(quote_free(": "@));
            lemma_other_key_no_key("error"@, ": "@, v + t, name, colon);
            lemma_no_occ_concat(quoted("error"@) + ": "@, v + t, k, (v + t).len() as int);
            let b = quoted("error"@) + ": "@ + (v + t);
            lemma_no_quote_no_key(sep, b, name, colon);
            lemma_no_occ_concat(sep, b, k, b.len() as int);
            assert(sep + b =~= closing_part(e));
        },
        None => {
            reveal_strlit(": [\n");
            reveal_strlit("\n  ]\n}");
            let t = "\n  ]\n}"@;
            let j = joined_entries(e.3, None);
            lemma_joined_no_key(e.3, t, name, colon);
            lemma_no_quote_no_key(t, z, name, colon);
            assert(t + z =~= t);
            lemma_no_occ_concat(j, t, k, t.len() as int);
            let r = ": [\n"@;
            assert(quote_free(r));
            lemma_other_key_no_key("matches"@, r, j + t, name, colon);
            lemma_no_occ_concat(quoted("matches"@) + r, j + t, k, (j + t).len() as int);
            let b = quoted("matches"@) + r + (j + t);
            lemma_no_quote_no_key(sep, b, name, colon);
            lemma_no_occ_concat(sep, b, k, b.len() as int);
            assert(sep + b =~= closing_part(e));
        },
    }
}

/// No key of `name` starts before a separator that no quote is in.
proof fn lemma_sep_no_key(h: Seq<char>, rest: Seq<char>, k: Seq<char>)
    requires
        no_occ_before(h + (",\n  "@ + rest), k, h.len() as int),
        k.len() > 0,
        k[0] == '"',
    ensures
        no_occ_before(h + ",\n  "@ + rest, k, (h + ",\n  "@).len() as int),
{
    reveal_strlit(",\n  ");
    let sep = ",\n  "@;
    let s2 = h + sep + rest;
    assert(s2 =~= h + (sep + rest));
    assert forall|j: int| 0 <= j < (h + sep).len() implies !#[trigger] occurs_at(s2, k, j) by {
        if occurs_at(s2, k, j) && j >= h.len() {
            let w = s2.subrange(j, j + k.len());
            assert(w[0] == s2[j]);
            assert(s2[j] == sep[j - h.len()]);
        }
    }
}

/// The text with no match marked, in its parts.
pub open spec fn plain_parts(e: crate::explainshell::ExplanationView, meta: Seq<(Seq<char>, Seq<char>)>) -> Seq<char> {
    command_part(e.0) + fields(meta) + closing_part(e)
}

/// The error reads back as written, and none where none was written.
pub proof fn lemma_read_error(e: crate::explainshell::ExplanationView, meta: Seq<(Seq<char>, Seq<char>)>)
    requires
        fields_apart(meta, "error"@),
        !mistakable_for(e.0, "error"@),
        e.2 is None ==> forall|i: int| 0 <= i < e.3.len() ==> match_apart(#[trigger] e.3[i], "error"@),
    ensures
        string_field(plain_parts(e, meta), quoted("error"@)) == e.2,
{
    lemma_names_plain();
    lemma_names_differ();
    reveal_strlit(",\n  ");
    let k = quoted("error"@);
    let h = command_part(e.0) + fields(meta);
    let c = closing_part(e);
    let sep = ",\n  "@;
    assert(c[0] == ',');
    lemma_head_no_key(e.0, meta, c, "error"@, false);
    match e.2 {
        Some(err) => {
            reveal_strlit("\n}");
            let rest = quoted("error"@) + ": "@ + quoted(escaped(err)) + "\n}"@;
            assert(c =~= sep + rest);
            lemma_sep_no_key(h, rest, k);
            let p = h + sep;
            assert(h + sep + rest =~= p + quoted("error"@) + ": "@ + quoted(escaped(err)) + "\n}"@);
            assert(plain_parts(e, meta) =~= p + quoted("error"@) + ": "@ + quoted(escaped(err)) + "\n}"@);
            lemma_string_field(p, "error"@, err, "\n}"@);
        },
        None => {
            lemma_closing_no_key_matches(e, "error"@);
            lemma_no_occ_concat(h, c, k, c.len() as int);
            lemma_find_none(h + c, k, 0);
        },
    }
}

/// No key of `name` starts in the list of matches, where the matches'
/// texts cannot be taken for it.
proof fn lemma_closing_no_key_matches(e: crate::explainshell::ExplanationView, name: Seq<char>)
    requires
        e.2 is None,
        plain_name(name),
        name != "index"@,
        name != "source"@,
        name != "explanation"@,
        name != "matches"@,
        forall|i: int| 0 <= i < e.3.len() ==> match_apart(#[trigger] e.3[i], name),
    ensures
        no_key(closing_part(e), quoted(name)),
{
    lemma_closing_no_key(e, name, false);
}

/// The list of matches reads back as written, and as empty after an error.
pub proof fn lemma_read_matches(e: crate::explainshell::ExplanationView, meta: Seq<(Seq<char>, Seq<char>)>)
    requires
        fields_apart(meta, "matches"@),
        e.2 is None ==> forall|i: int| 0 <= i < e.3.len() ==> !mistakable_for(#[trigger] e.3[i].1, "explanation"@),
    ensures
        parsed_matches(plain_parts(e, meta)) == match e.2 {
            Some(_) => Seq::<ParsedMatchView>::empty(),
            None => read_views(e.3),
        },
{
    lemma_names_plain();
    lemma_names_differ();
    reveal_strlit(",\n  ");
    reveal_strlit("\"matches\":");
    reveal_strlit("matches");
    let k = key_pattern("matches"@, true);
    assert("\"matches\":"@ =~= k);
    let h = command_part(e.0) + fields(meta);
    let c = closing_part(e);
    let sep = ",\n  "@;
    let s = plain_parts(e, meta);
    assert(c[0] == ',');
    lemma_head_no_key(e.0, meta, c, "matches"@, true);
    match e.2 {
        Some(err) => {
            lemma_closing_no_key(e, "matches"@, true);
            lemma_no_occ_concat(h, c, k, c.len() as int);
            lemma_find_none(h + c, k, 0);
        },
        None => {
            reveal_strlit(": [\n");
            reveal_strlit("\n  ]\n}");
            reveal_strlit("\n");
            let t = "\n  ]\n}"@;
            let j = joined_entries(e.3, None);
            let rest = quoted("matches"@) + ": [\n"@ + j + t;
            assert(c =~= sep + rest);
            lemma_key_pattern_first(k);
            lemma_sep_no_key(h, rest, k);
            let pos = (h + sep).len() as int;
            assert(s =~= h + sep + rest);
            assert(s.subrange(pos, pos + k.len()) =~= k);
            crate::exchange::lemma_find_at(s, k, 0, pos);
            let lb = seq!['['];
            assert forall|q: int| pos <= q < pos + 11 implies !#[trigger] occurs_at(s, lb, q) by {
                if occurs_at(s, lb, q) {
                    assert(s.subrange(q, q + 1)[0] == s[q]);
                    assert(s[q] == rest[q - pos]);
                }
            }
            assert(s.subrange(pos + 11, pos + 12) =~= lb);
            crate::exchange::lemma_find_at(s, lb, pos, pos + 11);
            assert(s.subrange(pos + 12, s.len() as int) =~= "\n"@ + j + t);
            assert(no_brace("\n"@));
            assert(no_brace(t));
            lemma_matches_from(s, pos + 12, "\n"@, e.3, t);
        },
    }
}

proof fn lemma_key_pattern_first(k: Seq<char>)
    requires
        k == key_pattern("matches"@, true),
    ensures
        k.len() > 0,
        k[0] == '"',
{
    crate::exchange::lemma_key_pattern("matches"@, true);
}

pub proof fn lemma_selection_apart(
    active: Option<usize>,
    expanded: Option<usize>,
    scroll: usize,
    name: Seq<char>,
    from: int,
    to: int,
)
    requires
        0 <= from <= to <= 3,
        from <= 0 < to ==> name != "active_match_idx"@,
        from <= 1 < to ==> name != "expanded_match_idx"@,
        from <= 2 < to ==> name != "expanded_scroll"@,
    ensures
        fields_apart(selection_fields(active, expanded, scroll).subrange(from, to), name),
{
    lemma_names_plain();
    let l = selection_fields(active, expanded, scroll).subrange(from, to);
    lemma_number_or_null_quote_free(active);
    lemma_number_or_null_quote_free(expanded);
    lemma_decimal_digits(scroll as nat);
    lemma_digits_quote_free(decimal(scroll as nat));
    assert forall|i: int| 0 <= i < l.len() implies plain_name(#[trigger] l[i].0) && l[i].0 != name && quote_free(
        l[i].1,
    ) by {
        assert(l[i] == selection_fields(active, expanded, scroll)[from + i]);
    }
}

/// No text of the explanation can be taken for a key that the pane reads
/// after it and takes its value from: the command for the error's key, and,
/// where matches are written, their texts for the error's key and a source
/// for the explanation's.
pub open spec fn keys_apart(e: crate::explainshell::ExplanationView) -> bool {
    &&& !mistakable_for(e.0, "error"@)
    &&& e.2 is None ==> forall|i: int|
        0 <= i < e.3.len() ==> match_apart(#[trigger] e.3[i], "error"@) && !mistakable_for(e.3[i].1, "explanation"@)
}

/// The selection reads back: each of its numbers is either none (for the
/// scroll offset, 0) or written where the command cannot be taken for its
/// key.
pub open spec fn selection_readable(
    command: Seq<char>,
    active: Option<usize>,
    expanded: Option<usize>,
    scroll: usize,
) -> bool {
    &&& (active is None || !mistakable_for(command, "active_match_idx"@))
    &&& (expanded is None || !mistakable_for(command, "expanded_match_idx"@))
    &&& (scroll == 0 || !mistakable_for(command, "expanded_scroll"@))
}

/// A JSON explanation that the pane can read back whole: neither highlight
/// code occurs in a text that is written, and no text can be taken for a
/// key whose value is read after it.
pub open spec fn readable(
    e: crate::explainshell::ExplanationView,
    active: Option<usize>,
    expanded: Option<usize>,
    scroll: usize,
) -> bool {
    &&& crate::highlight::texts_unmarked(e)
    &&& keys_apart(e)
    &&& selection_readable(e.0, active, expanded, scroll)
}

/// A number field whose key the command can be taken for reads as
/// missing: the reader finds the key in the command's value, with no digits
/// after it.
pub proof fn lemma_read_number_mistaken(command: Seq<char>, rest: Seq<char>, name: Seq<char>)
    requires
        plain_name(name),
        name != "command"@,
        mistakable_for(command, name),
        rest.len() > 0,
        rest[0] == ',',
    ensures
        usize_field(command_part(command) + rest, quoted(name)) is None,
{
    reveal_strlit("{\n  ");
    reveal_strlit(": ");
    lemma_names_plain();
    let k = quoted(name);
    let a = "{\n  "@;
    let hk = quoted("command"@) + ": "@;
    let v = quoted(escaped(command));
    let vr = v + rest;
    let s = command_part(command) + rest;
    assert(s =~= a + (hk + vr));
    assert(s =~= (a + hk) + vr);
    assert(quote_free(": "@));
    lemma_other_key_no_key("command"@, ": "@, vr, name, false);
    assert(quoted("command"@) + ": "@ + vr =~= hk + vr);
    lemma_no_quote_no_key(a, hk + vr, name, false);
    lemma_no_occ_concat(a, hk + vr, k, hk.len() as int);
    let base = (a + hk).len() as int;
    crate::exchange::lemma_value_key_at(command, rest, name);
    let j0 = base + v.len() - k.len();
    crate::exchange::lemma_occurs_shift(a + hk, vr, k, v.len() - k.len());
    assert forall|j: int| 0 <= j < j0 implies !#[trigger] occurs_at(s, k, j) by {
        if j >= base && occurs_at(s, k, j) {
            crate::exchange::lemma_occurs_shift(a + hk, vr, k, j - base);
            crate::exchange::lemma_value_key_end(command, rest, name, j - base);
        }
    }
    crate::exchange::lemma_find_at(s, k, 0, j0);
    let b = base + v.len();
    assert(s[b] == rest[0]);
    assert(crate::pane::skip_colon_ws(s, b) == b);
    assert(crate::pane::digits_end(s, b) == b);
}

proof fn lemma_read_selection(
    command: Seq<char>,
    active: Option<usize>,
    expanded: Option<usize>,
    scroll: usize,
    status: Option<i32>,
    pid: Option<u32>,
    c: Seq<char>,
)
    requires
        selection_readable(command, active, expanded, scroll),
        c.len() > 0,
        c[0] == ',',
    ensures
        ({
            let s = command_part(command) + fields(meta_fields(active, expanded, scroll, status, pid)) + c;
            &&& usize_field(s, quoted("active_match_idx"@)) == active
            &&& usize_field(s, quoted("expanded_match_idx"@)) == expanded
            &&& match usize_field(s, quoted("expanded_scroll"@)) {
                Some(v) => v,
                None => 0,
            } == scroll
        }),
{
    lemma_names_plain();
    lemma_names_differ();
    let ps = pid_status_fields(status, pid);
    let sel = selection_fields(active, expanded, scroll);
    let meta = meta_fields(active, expanded, scroll, status, pid);
    let s = command_part(command) + fields(meta) + c;
    let a = sel[0];
    let x = sel[1];
    let k = sel[2];
    lemma_fields_append(ps, sel);
    lemma_fields_three(a, x, k);
    assert(sel =~= seq![a, x, k]);
    let rest = fields(meta) + c;
    assert(fields(meta) == fields(ps) + (field(a.0, a.1) + field(x.0, x.1) + field(k.0, k.1)));
    assert(rest[0] == ',') by {
        lemma_meta_apart(active, expanded, scroll, status, pid, "error"@, 0);
        assert(ps + sel.take(0) =~= ps);
        lemma_fields_no_key(ps, Seq::<char>::empty(), "error"@, false);
        lemma_number_or_null_quote_free(active);
        lemma_field_no_key(a.0, a.1, Seq::<char>::empty(), "error"@, false);
        assert(fields(meta)[0] == ',');
    }
    assert(s =~= command_part(command) + rest);
    assert(sel.take(0) =~= Seq::<(Seq<char>, Seq<char>)>::empty());
    assert(ps + sel.take(0) =~= ps);
    assert(sel.take(1) =~= seq![a]);
    assert(sel.take(2) =~= seq![a, x]);
    if mistakable_for(command, "active_match_idx"@) {
        lemma_read_number_mistaken(command, rest, "active_match_idx"@);
    } else {
        lemma_meta_apart(active, expanded, scroll, status, pid, "active_match_idx"@, 0);
        lemma_selection_apart(active, expanded, scroll, "active_match_idx"@, 1, 3);
        assert(sel.subrange(1, 3) =~= seq![x, k]);
        assert(meta =~= ps + seq![a] + seq![x, k]);
        lemma_read_number(command, ps, "active_match_idx"@, active, seq![x, k], c);
    }
    if mistakable_for(command, "expanded_match_idx"@) {
        lemma_read_number_mistaken(command, rest, "expanded_match_idx"@);
    } else {
        lemma_meta_apart(active, expanded, scroll, status, pid, "expanded_match_idx"@, 1);
        lemma_selection_apart(active, expanded, scroll, "expanded_match_idx"@, 2, 3);
        assert(sel.subrange(2, 3) =~= seq![k]);
        assert(meta =~= ps + seq![a] + seq![x] + seq![k]);
        assert(ps + sel.take(1) =~= ps + seq![a]);
        lemma_read_number(command, ps + seq![a], "expanded_match_idx"@, expanded, seq![k], c);
    }
    if mistakable_for(command, "expanded_scroll"@) {
        lemma_read_number_mistaken(command, rest, "expanded_scroll"@);
    } else {
        lemma_meta_apart(active, expanded, scroll, status, pid, "expanded_scroll"@, 2);
        assert(ps + sel.take(2) =~= ps + seq![a, x]);
        assert(number_or_null(Some(scroll)) == decimal(scroll as nat));
        assert(meta =~= ps + seq![a, x] + seq![("expanded_scroll"@, number_or_null(Some(scroll)))] + Seq::<
            (Seq<char>, Seq<char>),
        >::empty());
        assert(fields_apart(Seq::<(Seq<char>, Seq<char>)>::empty(), "expanded_scroll"@));
        lemma_read_number(
            command,
            ps + seq![a, x],
            "expanded_scroll"@,
            Some(scroll),
            Seq::<(Seq<char>, Seq<char>)>::empty(),
            c,
        );
    }
}

/// What the pane reads of the text with no match marked.
proof fn lemma_read_plain(
    e: crate::explainshell::ExplanationView,
    active: Option<usize>,
    expanded: Option<usize>,
    scroll: usize,
    status: Option<i32>,
    pid: Option<u32>,
)
    requires
        keys_apart(e),
        selection_readable(e.0, active, expanded, scroll),
    ensures
        ({
            let s = crate::highlight::plain_json(e, active, expanded, scroll, status, pid);
            &&& string_field(s, quoted("command"@)) == Some(e.0)
            &&& string_field(s, quoted("error"@)) == e.2
            &&& usize_field(s, quoted("active_match_idx"@)) == active
            &&& usize_field(s, quoted("expanded_match_idx"@)) == expanded
            &&& match usize_field(s, quoted("expanded_scroll"@)) {
                Some(v) => v,
                None => 0,
            } == scroll
            &&& parsed_matches(s) == match e.2 {
                Some(_) => Seq::<ParsedMatchView>::empty(),
                None => read_views(e.3),
            }
        }),
{
    lemma_names_differ();
    lemma_plain_shape(e, active, expanded, scroll, status, pid);
    let sel = selection_fields(active, expanded, scroll);
    let meta = meta_fields(active, expanded, scroll, status, pid);
    let c = closing_part(e);
    reveal_strlit(",\n  ");
    assert(c[0] == ',');
    assert(plain_parts(e, meta) =~= command_part(e.0) + (fields(meta) + c));
    lemma_read_command(e.0, fields(meta) + c);
    assert(sel.take(3) =~= sel);
    lemma_meta_apart(active, expanded, scroll, status, pid, "error"@, 3);
    lemma_read_error(e, meta);
    lemma_meta_apart(active, expanded, scroll, status, pid, "matches"@, 3);
    lemma_read_matches(e, meta);
    lemma_read_selection(e.0, active, expanded, scroll, status, pid, c);
}

/// What the explanation pane reads back of the JSON text that the command
/// list writes is what was written: the command, the error, the active and
/// expanded match, the scroll offset and, where no error was written, each
/// match's index, source and explanation in order.
pub proof fn law_pane_reads_back(
    e: crate::explainshell::ExplanationView,
    active: Option<usize>,
    expanded: Option<usize>,
    scroll: usize,
    status: Option<i32>,
    pid: Option<u32>,
)
    requires
        readable(e, active, expanded, scroll),
    ensures
        parsed_json(crate::explainshell::explanation_json(e, active, expanded, scroll, status, pid)) == (
            e.0,
            e.2,
            active,
            expanded,
            scroll,
            match e.2 {
                Some(_) => Seq::<ParsedMatchView>::empty(),
                None => read_views(e.3),
            },
        ),
{
    crate::highlight::lemma_without_highlight(e, active, expanded, scroll, status, pid);
    lemma_read_plain(e, active, expanded, scroll, status, pid);
    reveal_strlit("\"command\"");
    reveal_strlit("\"error\"");
    reveal_strlit("\"active_match_idx\"");
    reveal_strlit("\"expanded_match_idx\"");
    reveal_strlit("\"expanded_scroll\"");
    reveal_strlit("command");
    reveal_strlit("error");
    reveal_strlit("active_match_idx");
    reveal_strlit("expanded_match_idx");
    reveal_strlit("expanded_scroll");
    assert("\"command\""@ =~= quoted("command"@));
    assert("\"error\""@ =~= quoted("error"@));
    assert("\"active_match_idx\""@ =~= quoted("active_match_idx"@));
    assert("\"expanded_match_idx\""@ =~= quoted("expanded_match_idx"@));
    assert("\"expanded_scroll\""@ =~= quoted("expanded_scroll"@));
}

} // verus!
