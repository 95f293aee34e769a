use vstd::prelude::*;

use crate::hash::push_char;

verus! {

/// Characters with the Unicode `White_Space` property.
pub open spec fn is_white_space(c: char) -> bool {
    let u = c as u32;
    (9 <= u <= 13) || u == 32 || u == 0x85 || u == 0xA0 || u == 0x1680 || (0x2000 <= u <= 0x200A)
        || u == 0x2028 || u == 0x2029 || u == 0x202F || u == 0x205F || u == 0x3000
}

/// White space that collapses to a single space: all of it but the
/// no-break space U+00A0.
pub open spec fn is_collapsible_space(c: char) -> bool {
    is_white_space(c) && c != '\u{a0}'
}

/// `s` with each maximal run of collapsible white space replaced by one
/// ASCII space.
pub open spec fn collapse_spaces(s: Seq<char>) -> Seq<char>
    decreases s.len(),
{
    if s.len() == 0 {
        s
    } else {
        let r = collapse_spaces(s.drop_last());
        let c = s.last();
        if !is_collapsible_space(c) {
            r.push(c)
        } else if s.len() >= 2 && is_collapsible_space(s[s.len() - 2]) {
            r
        } else {
            r.push(' ')
        }
    }
}

/// Every character of `u` is collapsible white space.
pub open spec fn all_collapsible(u: Seq<char>) -> bool {
    forall|i: int| 0 <= i < u.len() ==> is_collapsible_space(#[trigger] u[i])
}

/// `a` and `b` are the same text but for one run of white space, which may
/// differ in length and in its characters.
pub open spec fn differ_by_space_run(a: Seq<char>, b: Seq<char>) -> bool {
    exists|p: Seq<char>, u: Seq<char>, v: Seq<char>, q: Seq<char>|
        a == p + u + q && b == p + v + q && u.len() > 0 && v.len() > 0 && all_collapsible(u)
            && all_collapsible(v)
}

proof fn lemma_collapse_append_run(x: Seq<char>, u: Seq<char>)
    requires
        u.len() > 0,
        all_collapsible(u),
    ensures
        collapse_spaces(x + u) == if x.len() > 0 && is_collapsible_space(x.last()) {
            collapse_spaces(x)
        } else {
            collapse_spaces(x).push(' ')
        },
    decreases u.len(),
{
    let s = x + u;
    assert(s.drop_last() =~= x + u.drop_last());
    assert(s.last() == u.last());
    if u.len() == 1 {
        assert(x + u.drop_last() =~= x);
        if x.len() > 0 {
            assert(s[s.len() - 2] == x.last());
        }
    } else {
        assert(all_collapsible(u.drop_last())) by {
            assert forall|i: int| 0 <= i < u.drop_last().len() implies is_collapsible_space(
                #[trigger] u.drop_last()[i],
            ) by {
                assert(u.drop_last()[i] == u[i]);
            }
        }
        lemma_collapse_append_run(x, u.drop_last());
        assert(s[s.len() - 2] == u[u.len() - 2]);
    }
}

proof fn lemma_collapse_append_same(a: Seq<char>, b: Seq<char>, q: Seq<char>)
    requires
        a.len() > 0,
        b.len() > 0,
        collapse_spaces(a) == collapse_spaces(b),
        is_collapsible_space(a.last()) == is_collapsible_space(b.last()),
    ensures
        collapse_spaces(a + q) == collapse_spaces(b + q),
    decreases q.len(),
{
    if q.len() == 0 {
        assert(a + q =~= a);
        assert(b + q =~= b);
    } else {
        lemma_collapse_append_same(a, b, q.drop_last());
        let sa = a + q;
        let sb = b + q;
        assert(sa.drop_last() =~= a + q.drop_last());
        assert(sb.drop_last() =~= b + q.drop_last());
        assert(sa.last() == q.last());
        assert(sb.last() == q.last());
        if q.len() >= 2 {
            assert(sa[sa.len() - 2] == q[q.len() - 2]);
            assert(sb[sb.len() - 2] == q[q.len() - 2]);
        } else {
            assert(sa[sa.len() - 2] == a.last());
            assert(sb[sb.len() - 2] == b.last());
        }
    }
}

/// Texts that differ only in one run of white space normalize alike.
pub proof fn lemma_space_run_normalizes_alike(a: Seq<char>, b: Seq<char>)
    requires
        differ_by_space_run(a, b),
    ensures
        collapse_spaces(a) == collapse_spaces(b),
        normalized_text(a) == normalized_text(b),
{
    let (p, u, v, q) = choose|p: Seq<char>, u: Seq<char>, v: Seq<char>, q: Seq<char>|
        a == p + u + q && b == p + v + q && u.len() > 0 && v.len() > 0 && all_collapsible(u)
            && all_collapsible(v);
    lemma_collapse_append_run(p, u);
    lemma_collapse_append_run(p, v);
    assert((p + u).last() == u.last());
    assert((p + v).last() == v.last());
    assert(is_collapsible_space(u[u.len() - 1]));
    assert(is_collapsible_space(v[v.len() - 1]));
    lemma_collapse_append_same(p + u, p + v, q);
}

/// `s` without its leading white space.
pub open spec fn trim_start_spec(s: Seq<char>) -> Seq<char>
    decreases s.len(),
{
    if s.len() > 0 && is_white_space(s[0]) {
        trim_start_spec(s.drop_first())
    } else {
        s
    }
}

/// `s` without its trailing white space.
pub open spec fn trim_end_spec(s: Seq<char>) -> Seq<char>
    decreases s.len(),
{
    if s.len() > 0 && is_white_space(s.last()) {
        trim_end_spec(s.drop_last())
    } else {
        s
    }
}

/// `s` without leading and trailing white space.
pub open spec fn trim_spec(s: Seq<char>) -> Seq<char> {
    trim_end_spec(trim_start_spec(s))
}

/// The normalized form of a text: white-space runs collapsed, then trimmed.
pub open spec fn normalized_text(s: Seq<char>) -> Seq<char> {
    trim_spec(collapse_spaces(s))
}

/// Relies on `regex::Regex::replace_all` with the pattern `[^\S\u{00A0}]+`:
/// every leftmost-longest run of `White_Space` characters other than U+00A0
/// becomes one space.
#[verifier::external_body]
fn replace_space_runs(s: &str) -> (r: String)
    ensures
        r@ == collapse_spaces(s@),
{
    regex::Regex::new(r"[^\S\u{00A0}]+").unwrap().replace_all(s, " ").into_owned()
}

/// Collapses each run of white space other than the no-break space into a
/// single ASCII space.
pub fn normalize_spaces(s: &str) -> (r: String)
    ensures
        r@ == collapse_spaces(s@),
{
    replace_space_runs(s)
}

/// Relies on `str::trim`: removes leading and trailing `White_Space`
/// characters.
#[verifier::external_body]
fn trim_text(s: &str) -> (r: String)
    ensures
        r@ == trim_spec(s@),
{
    s.trim().to_string()
}

/// Collapses white-space runs and trims the result.
pub fn normalize_text(s: &str) -> (r: String)
    ensures
        r@ == normalized_text(s@),
{
    let collapsed = normalize_spaces(s);
    trim_text(collapsed.as_str())
}

/// Relies on `str::chars`: the characters of `s` in order.
#[verifier::external_body]
pub(crate) fn chars_of(s: &str) -> (r: Vec<char>)
    ensures
        r@ == s@,
{
    s.chars().collect()
}

/// The placeholder `{name}` for a token name.
pub open spec fn token_pattern(name: Seq<char>) -> Seq<char> {
    seq!['{'] + name + seq!['}']
}

/// The placeholder text `{token_name}`.
pub fn token_name_to_text_pattern(token_name: &str) -> (r: String)
    ensures
        r@ == token_pattern(token_name@),
{
    let mut r = String::new();
    push_char(&mut r, '{');
    r.append(token_name);
    push_char(&mut r, '}');
    assert(r@ =~= token_pattern(token_name@));
    r
}

/// Lower-case hexadecimal digit of `d`.
pub open spec fn hex_digit(d: u32) -> char {
    if d < 10 {
        ((48 + d) as u8) as char
    } else {
        ((97 + d - 10) as u8) as char
    }
}

/// The JSON escape of one character: quote, backslash and control
/// characters are escaped; everything else stands for itself.
pub open spec fn json_escape_char(c: char) -> Seq<char> {
    let u = c as u32;
    if c == '"' {
        seq!['\\', '"']
    } else if c == '\\' {
        seq!['\\', '\\']
    } else if u == 8 {
        seq!['\\', 'b']
    } else if u == 12 {
        seq!['\\', 'f']
    } else if c == '\n' {
        seq!['\\', 'n']
    } else if c == '\r' {
        seq!['\\', 'r']
    } else if c == '\t' {
        seq!['\\', 't']
    } else if u < 32 {
        seq!['\\', 'u', '0', '0', hex_digit(u / 16), hex_digit(u % 16)]
    } else {
        seq![c]
    }
}

/// The escaped contents of a JSON string literal for `s`.
pub open spec fn json_escape(s: Seq<char>) -> Seq<char>
    decreases s.len(),
{
    if s.len() == 0 {
        s
    } else {
        json_escape(s.drop_last()) + json_escape_char(s.last())
    }
}

/// The JSON string literal for `s`, quotes included.
pub open spec fn json_quote(s: Seq<char>) -> Seq<char> {
    seq!['"'] + json_escape(s) + seq!['"']
}

/// Relies on serde_json's compact writer for `Value::String`: the text in
/// double quotes, with `"`, `\` and characters below U+0020 escaped (`\b`,
/// `\f`, `\n`, `\r`, `\t`, else `\u00xx` in lower-case hex).
#[verifier::external_body]
pub(crate) fn json_string(s: &str) -> (r: String)
    ensures
        r@ == json_quote(s@),
{
    serde_json::Value::String(s.to_string()).to_string()
}

/// Strict lexicographic order on character sequences, by code point.
pub open spec fn seq_lt(a: Seq<char>, b: Seq<char>) -> bool
    decreases a.len(),
{
    if a.len() == 0 {
        b.len() > 0
    } else if b.len() == 0 {
        false
    } else if a[0] != b[0] {
        a[0] < b[0]
    } else {
        seq_lt(a.drop_first(), b.drop_first())
    }
}

pub proof fn lemma_seq_lt_total(a: Seq<char>, b: Seq<char>)
    requires
        a != b,
    ensures
        seq_lt(a, b) || seq_lt(b, a),
    decreases a.len(),
{
    if a.len() == 0 {
        assert(b.len() > 0) by {
            if b.len() == 0 {
                assert(a =~= b);
            }
        }
    } else if b.len() > 0 && a[0] == b[0] {
        if a.drop_first() == b.drop_first() {
            assert(a =~= seq![a[0]] + a.drop_first());
            assert(b =~= seq![b[0]] + b.drop_first());
        }
        lemma_seq_lt_total(a.drop_first(), b.drop_first());
    }
}

/// Whether `a` orders strictly before `b`.
pub fn str_less(a: &str, b: &str) -> (r: bool)
    ensures
        r == seq_lt(a@, b@),
{
    let ca = chars_of(a);
    let cb = chars_of(b);
    let mut i: usize = 0;
    assert(a@.skip(0) =~= a@);
    assert(b@.skip(0) =~= b@);
    while i < ca.len() && i < cb.len()
        invariant
            ca@ == a@,
            cb@ == b@,
            i <= ca@.len(),
            i <= cb@.len(),
            seq_lt(a@, b@) == seq_lt(a@.skip(i as int), b@.skip(i as int)),
        decreases ca@.len() - i,
    {
        if ca[i] != cb[i] {
            return ca[i] < cb[i];
        }
        assert(a@.skip(i as int).drop_first() =~= a@.skip(i + 1));
        assert(b@.skip(i as int).drop_first() =~= b@.skip(i + 1));
        i = i + 1;
    }
    i < cb.len()
}

/// Whether `a` and `b` hold the same characters.
pub fn str_equal(a: &str, b: &str) -> (r: bool)
    ensures
        r == (a@ == b@),
{
    let ca = chars_of(a);
    let cb = chars_of(b);
    if ca.len() != cb.len() {
        return false;
    }
    let mut i: usize = 0;
    while i < ca.len()
        invariant
            ca@ == a@,
            cb@ == b@,
            ca@.len() == cb@.len(),
            i <= ca@.len(),
            forall|j: int| 0 <= j < i ==> ca@[j] == cb@[j],
        decreases ca@.len() - i,
    {
        if ca[i] != cb[i] {
            return false;
        }
        i = i + 1;
    }
    assert(a@ =~= b@);
    true
}

} // verus!
