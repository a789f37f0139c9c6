//! Recognition of the text of a JSON number (RFC 8259):
//!
//! ```text
//! Number ::= '-'? Int Frac? Exp?
//! Int    ::= '0' | [1-9] [0-9]*
//! Frac   ::= '.' [0-9]+
//! Exp    ::= [eE] [+-]? [0-9]+
//! ```
//!
//! No surrounding whitespace is allowed.

use vstd::prelude::*;

verus! {

/// A decimal digit.
pub open spec fn is_digit(c: char) -> bool {
    '0' <= c && c <= '9'
}

/// A sign character.
pub open spec fn is_sign(c: char) -> bool {
    c == '+' || c == '-'
}

/// The number of leading decimal digits of `s`.
pub open spec fn leading_digits(s: Seq<char>) -> nat
    decreases s.len(),
{
    if s.len() > 0 && is_digit(s[0]) {
        1 + leading_digits(s.drop_first())
    } else {
        0
    }
}

/// `s` is empty or an exponent: `e` or `E`, an optional sign, one or more
/// digits.
pub open spec fn is_exponent_or_empty(s: Seq<char>) -> bool {
    s.len() == 0 || ((s[0] == 'e' || s[0] == 'E') && {
        let r = if s.len() > 1 && is_sign(s[1]) { s.skip(2) } else { s.skip(1) };
        leading_digits(r) > 0 && leading_digits(r) == r.len()
    })
}

/// `s` is an optional fraction (a point and one or more digits) followed by
/// an optional exponent.
pub open spec fn is_fraction_exponent(s: Seq<char>) -> bool {
    if s.len() > 0 && s[0] == '.' {
        let n = leading_digits(s.skip(1));
        n > 0 && is_exponent_or_empty(s.skip(1 + n as int))
    } else {
        is_exponent_or_empty(s)
    }
}

/// `s` is the text of a JSON number: an optional `-`, an integer part without
/// leading zeros, an optional fraction and an optional exponent.
pub open spec fn is_json_number_text(s: Seq<char>) -> bool {
    let t = if s.len() > 0 && s[0] == '-' { s.skip(1) } else { s };
    let n = leading_digits(t);
    n > 0 && (t[0] != '0' || n == 1) && is_fraction_exponent(t.skip(n as int))
}

/// The number of leading digits of `s` from position `i` on.
fn count_digits(s: &[char], i: usize) -> (n: usize)
    requires
        i <= s.len(),
    ensures
        n == leading_digits(s@.skip(i as int)),
        i + n <= s.len(),
{
    let mut j = i;
    while j < s.len() && '0' <= s[j] && s[j] <= '9'
        invariant
            i <= j <= s.len(),
            leading_digits(s@.skip(i as int)) == (j - i) + leading_digits(s@.skip(j as int)),
        decreases s.len() - j,
    {
        assert(s@.skip(j as int).drop_first() =~= s@.skip(j + 1));
        j = j + 1;
    }
    j - i
}

/// Whether `s` from position `i` on is empty or an exponent.
fn exponent_or_empty_at(s: &[char], i: usize) -> (b: bool)
    requires
        i <= s.len(),
    ensures
        b == is_exponent_or_empty(s@.skip(i as int)),
{
    let ghost t = s@.skip(i as int);
    if i == s.len() {
        return true;
    }
    if s[i] != 'e' && s[i] != 'E' {
        return false;
    }
    let j = if i + 1 < s.len() && (s[i + 1] == '+' || s[i + 1] == '-') { i + 2 } else { i + 1 };
    if j > i + 1 {
        assert(t.skip(2) =~= s@.skip(i + 2));
    } else {
        assert(t.skip(1) =~= s@.skip(i + 1));
    }
    let n = count_digits(s, j);
    n > 0 && j + n == s.len()
}

/// Whether `text` is the text of a JSON number.
pub fn is_json_number(text: &str) -> (b: bool)
    ensures
        b == is_json_number_text(text@),
{
    let s = crate::text::chars_of(text);
    let start: usize = if s.len() > 0 && s[0] == '-' { 1 } else { 0 };
    let ghost t = s@.skip(start as int);
    assert(start == 0 ==> s@.skip(0) =~= s@);
    let n = count_digits(s.as_slice(), start);
    if n == 0 {
        return false;
    }
    assert(t[0] == s@[start as int]);
    if s[start] == '0' && n != 1 {
        return false;
    }
    let p = start + n;
    assert(t.skip(n as int) =~= s@.skip(p as int));
    if p < s.len() && s[p] == '.' {
        assert(s@.skip(p as int).skip(1) =~= s@.skip(p + 1));
        let m = count_digits(s.as_slice(), p + 1);
        assert(s@.skip(p as int).skip(1 + m as int) =~= s@.skip(p + 1 + m));
        m > 0 && exponent_or_empty_at(s.as_slice(), p + 1 + m)
    } else {
        exponent_or_empty_at(s.as_slice(), p)
    }
}

} // verus!
