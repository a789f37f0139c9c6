//! Parameter placeholders: `:name` in a route, a header or a body, where the
//! name is the whole run of name characters after the colon.

use vstd::prelude::*;
use crate::table::Table;
use crate::text::{append_chars, chars_of, slice_string, string_of};

verus! {

/// What `char::is_alphanumeric` gives: whether the character is alphabetic
/// or numeric in Unicode.
pub uninterp spec fn alphanumeric(c: char) -> bool;

/// Whether `c` is alphabetic or numeric, by `char::is_alphanumeric`. The
/// contract claims that the result is the one named `alphanumeric`, and that
/// among ASCII characters exactly the letters and digits are alphanumeric;
/// which other characters are is not stated.
#[verifier::external_body]
fn is_alphanumeric(c: char) -> (b: bool)
    ensures
        b == alphanumeric(c),
        (c as int) < 128 ==> (b <==> (('a' <= c && c <= 'z') || ('A' <= c && c <= 'Z') || ('0' <= c && c <= '9'))),
{
    c.is_alphanumeric()
}

/// A character of a parameter name: a Unicode letter or digit, or `_`.
pub open spec fn name_char(c: char) -> bool {
    alphanumeric(c) || c == '_'
}

fn is_name_char(c: char) -> (b: bool)
    ensures
        b == name_char(c),
{
    is_alphanumeric(c) || c == '_'
}

/// The number of leading name characters of `s`.
pub open spec fn name_len(s: Seq<char>) -> nat
    decreases s.len(),
{
    if s.len() > 0 && name_char(s[0]) {
        1 + name_len(s.drop_first())
    } else {
        0
    }
}

/// The name of the placeholder whose colon is at position `i`: the run of
/// name characters that follows it.
pub open spec fn placeholder_name(s: Seq<char>, i: int) -> Seq<char> {
    s.subrange(i + 1, i + 1 + name_len(s.skip(i + 1)) as int)
}

/// The text with each placeholder `:name` whose name is a parameter replaced
/// by that parameter's value, in one pass from the left; the values are not
/// read again, and any other text, an unknown name included, stays as it is.
pub open spec fn fill_placeholders(s: Seq<char>, m: Map<Seq<char>, Seq<char>>) -> Seq<char>
    decreases s.len(),
{
    if s.len() == 0 {
        s
    } else if s[0] == ':' && 0 < name_len(s.drop_first()) < s.len() && m.contains_key(placeholder_name(s, 0)) {
        m[placeholder_name(s, 0)] + fill_placeholders(s.skip(1 + name_len(s.drop_first()) as int), m)
    } else {
        seq![s[0]] + fill_placeholders(s.drop_first(), m)
    }
}

/// `name_len` does not go past the end.
pub proof fn lemma_name_len_bound(s: Seq<char>)
    ensures
        name_len(s) <= s.len(),
    decreases s.len(),
{
    if s.len() > 0 && name_char(s[0]) {
        lemma_name_len_bound(s.drop_first());
    }
}

/// The run of name characters of a name followed by something else is the
/// name.
proof fn lemma_name_len_of(name: Seq<char>, rest: Seq<char>)
    requires
        forall|i: int| 0 <= i < name.len() ==> name_char(#[trigger] name[i]),
        rest.len() == 0 || !name_char(rest[0]),
    ensures
        name_len(name + rest) == name.len(),
    decreases name.len(),
{
    if name.len() > 0 {
        assert((name + rest).drop_first() =~= name.drop_first() + rest);
        assert forall|i: int| 0 <= i < name.drop_first().len() implies name_char(#[trigger] name.drop_first()[i]) by {
            assert(name.drop_first()[i] == name[i + 1]);
        }
        lemma_name_len_of(name.drop_first(), rest);
        assert(name_char((name + rest)[0]));
    } else {
        assert(name + rest =~= rest);
    }
}

/// A placeholder whose name is a parameter gets that parameter's value, and
/// only that name's: the name is the whole run of name characters, so `:id`
/// is no part of `:idx`.
pub proof fn law_placeholder_gets_its_own_value(name: Seq<char>, rest: Seq<char>, m: Map<Seq<char>, Seq<char>>)
    requires
        name.len() > 0,
        forall|i: int| 0 <= i < name.len() ==> name_char(#[trigger] name[i]),
        rest.len() == 0 || !name_char(rest[0]),
        m.contains_key(name),
    ensures
        fill_placeholders(seq![':'] + name + rest, m) == m[name] + fill_placeholders(rest, m),
{
    let s = seq![':'] + name + rest;
    assert(s.drop_first() =~= name + rest);
    lemma_name_len_of(name, rest);
    assert(placeholder_name(s, 0) =~= name) by {
        assert(s.skip(1) =~= name + rest);
    }
    assert(s.skip(1 + name.len() as int) =~= rest);
}

/// A text that ends in a character that is neither a name character nor `:`
/// ends every run of name characters within it.
proof fn lemma_name_len_stops(x: Seq<char>, y: Seq<char>)
    requires
        x.len() > 0,
        !name_char(x.last()),
    ensures
        name_len(x + y) == name_len(x),
        name_len(x) < x.len(),
    decreases x.len(),
{
    if name_char(x[0]) {
        assert(x.len() > 1);
        assert((x + y).drop_first() =~= x.drop_first() + y);
        assert(x.drop_first().last() == x.last());
        lemma_name_len_stops(x.drop_first(), y);
    }
}

/// Filling parameters works piece by piece: for a text `a` that does not
/// end inside a placeholder (it is empty, or its last character is neither a
/// name character nor `:`), filling `a` followed by `b` is filling `a`, then
/// filling `b`. So a placeholder is filled wherever it stands, after `&` as
/// well as at the start.
pub proof fn law_fill_composes(a: Seq<char>, b: Seq<char>, m: Map<Seq<char>, Seq<char>>)
    requires
        a.len() == 0 || (!name_char(a.last()) && a.last() != ':'),
    ensures
        fill_placeholders(a + b, m) == fill_placeholders(a, m) + fill_placeholders(b, m),
    decreases a.len(),
{
    let s = a + b;
    if a.len() == 0 {
        assert(s =~= b);
        assert(fill_placeholders(a, m) =~= Seq::<char>::empty());
    } else {
        assert(s[0] == a[0]);
        assert(s.drop_first() =~= a.drop_first() + b);
        if a[0] == ':' {
            assert(a.len() > 1);
            let t = a.drop_first();
            assert(t.last() == a.last());
            lemma_name_len_stops(t, b);
            let k = name_len(t);
            assert(s.skip(1) =~= s.drop_first());
            assert(a.skip(1) =~= t);
            assert(placeholder_name(s, 0) =~= placeholder_name(a, 0));
            if 0 < k && m.contains_key(placeholder_name(a, 0)) {
                let r = a.skip(1 + k as int);
                assert(r.len() > 0);
                assert(r.last() == a.last());
                assert(s.skip(1 + k as int) =~= r + b);
                law_fill_composes(r, b, m);
                assert(fill_placeholders(s, m) =~= fill_placeholders(a, m) + fill_placeholders(b, m));
            } else {
                law_fill_composes(t, b, m);
                assert(fill_placeholders(s, m) =~= fill_placeholders(a, m) + fill_placeholders(b, m));
            }
        } else {
            let t = a.drop_first();
            if t.len() > 0 {
                assert(t.last() == a.last());
            }
            law_fill_composes(t, b, m);
            assert(fill_placeholders(s, m) =~= fill_placeholders(a, m) + fill_placeholders(b, m));
        }
    }
}

/// A placeholder whose name is a parameter is replaced by that parameter's
/// value wherever it stands: after any text that does not end inside a
/// placeholder, and before any text that does not go on with the name.
pub proof fn law_placeholder_filled_anywhere(
    a: Seq<char>,
    name: Seq<char>,
    rest: Seq<char>,
    m: Map<Seq<char>, Seq<char>>,
)
    requires
        a.len() == 0 || (!name_char(a.last()) && a.last() != ':'),
        name.len() > 0,
        forall|i: int| 0 <= i < name.len() ==> name_char(#[trigger] name[i]),
        rest.len() == 0 || !name_char(rest[0]),
        m.contains_key(name),
    ensures
        fill_placeholders(a + seq![':'] + name + rest, m) == fill_placeholders(a, m) + m[name] + fill_placeholders(rest, m),
{
    let p = seq![':'] + name + rest;
    assert(a + seq![':'] + name + rest =~= a + p);
    law_fill_composes(a, p, m);
    law_placeholder_gets_its_own_value(name, rest, m);
    assert(fill_placeholders(a, m) + (m[name] + fill_placeholders(rest, m)) =~= fill_placeholders(a, m) + m[name] + fill_placeholders(rest, m));
}

/// A text in which no placeholder names a parameter is left as it is.
pub proof fn law_text_without_placeholders_unchanged(s: Seq<char>, m: Map<Seq<char>, Seq<char>>)
    requires
        forall|i: int| 0 <= i < s.len() && s[i] == ':' ==> !m.contains_key(#[trigger] placeholder_name(s, i)),
    ensures
        fill_placeholders(s, m) == s,
    decreases s.len(),
{
    if s.len() > 0 {
        let t = s.drop_first();
        assert forall|i: int| 0 <= i < t.len() && t[i] == ':' implies !m.contains_key(#[trigger] placeholder_name(t, i)) by {
            assert(t.skip(i + 1) =~= s.skip(i + 2));
            lemma_name_len_bound(s.skip(i + 2));
            assert(placeholder_name(t, i) =~= placeholder_name(s, i + 1));
            assert(s[i + 1] == ':');
        }
        law_text_without_placeholders_unchanged(t, m);
        if s[0] == ':' {
            assert(s.skip(1) =~= s.drop_first());
            assert(!m.contains_key(placeholder_name(s, 0)));
        }
        assert(s =~= seq![s[0]] + t);
    }
}

/// The number of name characters in `s` from position `i` on.
fn count_name_chars(s: &Vec<char>, i: usize) -> (n: usize)
    requires
        i <= s@.len(),
    ensures
        n == name_len(s@.skip(i as int)),
        i + n <= s@.len(),
{
    let mut j = i;
    while j < s.len() && is_name_char(s[j])
        invariant
            i <= j <= s@.len(),
            name_len(s@.skip(i as int)) == (j - i) + name_len(s@.skip(j as int)),
        decreases s@.len() - j,
    {
        assert(s@.skip(j as int).drop_first() =~= s@.skip(j + 1));
        j = j + 1;
    }
    j - i
}

/// Replaces each placeholder `:name` whose name is a parameter by that
/// parameter's value (see `fill_placeholders`).
pub fn fill_params(input: &str, params: &Table<String>) -> (out: String)
    ensures
        out@ == fill_placeholders(input@, params@),
{
    let cs = chars_of(input);
    let ghost m = params@;
    let mut out: Vec<char> = Vec::new();
    let mut i: usize = 0;
    assert(cs@.skip(0) =~= cs@);
    while i < cs.len()
        invariant
            i <= cs@.len(),
            cs@ == input@,
            m == params@,
            fill_placeholders(cs@, m) == out@ + fill_placeholders(cs@.skip(i as int), m),
        decreases cs@.len() - i,
    {
        let ghost t = cs@.skip(i as int);
        assert(t[0] == cs@[i as int]);
        assert(t.drop_first() =~= cs@.skip(i + 1));
        if cs[i] == ':' {
            let n = count_name_chars(&cs, i + 1);
            if n > 0 && i + 1 + n <= cs.len() && n < cs.len() - i {
                let name = slice_string(cs.as_slice(), i + 1, i + 1 + n);
                assert(name@ =~= placeholder_name(t, 0)) by {
                    assert(t.skip(1) =~= cs@.skip(i + 1));
                }
                match params.get(&name) {
                    Some(v) => {
                        let vc = chars_of(v.as_str());
                        let ghost before = out@;
                        append_chars(&mut out, vc.as_slice());
                        assert(t.skip(1 + n) =~= cs@.skip(i + 1 + n));
                        assert(out@ + fill_placeholders(cs@.skip(i + 1 + n), m) =~= before + fill_placeholders(t, m));
                        i = i + 1 + n;
                        continue;
                    },
                    None => {},
                }
            }
        }
        let ghost before = out@;
        out.push(cs[i]);
        assert(out@ + fill_placeholders(cs@.skip(i + 1), m) =~= before + fill_placeholders(t, m));
        i = i + 1;
    }
    assert(cs@.skip(i as int) =~= Seq::<char>::empty());
    assert(out@ + Seq::<char>::empty() =~= out@);
    string_of(out.as_slice())
}

} // verus!
