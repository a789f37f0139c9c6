//! Completion of JSON paths typed by the user: suggestions that contain the
//! input (ignoring case), and completion to their longest common prefix.

use vstd::prelude::*;
use crate::text::{chars_of, contains_str, contains_text, lowercase, string_views, to_lowercase};

verus! {

/// Suggestions offered while the user types.
pub struct CustomAutocomplete {
    pub suggestions: Vec<String>,
}

/// The suggestions whose lower-case form contains the lower-case input, in order.
pub open spec fn matching_suggestions(ss: Seq<Seq<char>>, input: Seq<char>) -> Seq<Seq<char>>
    decreases ss.len(),
{
    if ss.len() == 0 {
        Seq::empty()
    } else if contains_text(lowercase(ss.last()), lowercase(input)) {
        matching_suggestions(ss.drop_last(), input).push(ss.last())
    } else {
        matching_suggestions(ss.drop_last(), input)
    }
}

/// The number of leading characters that `a` and `b` share.
pub open spec fn common_len(a: Seq<char>, b: Seq<char>) -> nat
    decreases a.len(),
{
    if a.len() > 0 && b.len() > 0 && a[0] == b[0] {
        1 + common_len(a.drop_first(), b.drop_first())
    } else {
        0
    }
}

/// The length of the longest prefix of `first` shared by all of `others`.
pub open spec fn lcp_len_with(first: Seq<char>, others: Seq<Seq<char>>) -> nat
    decreases others.len(),
{
    if others.len() == 0 {
        first.len()
    } else {
        let m = lcp_len_with(first, others.drop_last());
        let c = common_len(first, others.last());
        if c < m {
            c
        } else {
            m
        }
    }
}

/// The longest common prefix of the strings (empty when there are none).
pub open spec fn longest_prefix(ss: Seq<Seq<char>>) -> Seq<char> {
    if ss.len() == 0 {
        Seq::empty()
    } else {
        ss[0].take(lcp_len_with(ss[0], ss.drop_first()) as int)
    }
}

/// The first byte of the UTF-8 encoding of `c`.
pub open spec fn utf8_first_byte(c: char) -> int {
    let n = c as int;
    if n < 0x80 {
        n
    } else if n < 0x800 {
        0xC0 + n / 64
    } else if n < 0x10000 {
        0xE0 + n / 4096
    } else {
        0xF0 + n / 262144
    }
}

/// The longest common prefix, counted in bytes, ends on a character boundary
/// of the first string: with at least two strings, some other string that
/// shares no more characters with the first than all do has, at the first
/// difference, no character or one whose encoding starts with another byte.
pub open spec fn prefix_ends_on_char(ss: Seq<Seq<char>>) -> bool {
    ss.len() <= 1 || {
        let k = lcp_len_with(ss[0], ss.drop_first());
        exists|i: int| 1 <= i < ss.len() && #[trigger] common_len(ss[0], ss[i]) == k && (k >= ss[0].len() || k >= ss[i].len()
            || utf8_first_byte(ss[0][k as int]) != utf8_first_byte(ss[i][k as int]))
    }
}

/// The longest common prefix of the strings, by
/// `commands::util::longest_common_prefix`, which compares bytes. Its
/// contract claims that when that byte prefix ends on a character boundary
/// (the only case in which the function returns), the result is the longest
/// common prefix in characters.
#[verifier::external_body]
fn longest_common_prefix(strings: &Vec<String>) -> (r: String)
    requires
        prefix_ends_on_char(string_views(strings@)),
    ensures
        r@ == longest_prefix(string_views(strings@)),
{
    commands::util::longest_common_prefix(strings.iter().map(|s| s.as_str()).collect()).to_string()
}

fn first_byte(c: char) -> (b: u32)
    ensures
        b as int == utf8_first_byte(c),
{
    let n = c as u32;
    if n < 0x80 {
        n
    } else if n < 0x800 {
        0xC0 + n / 64
    } else if n < 0x10000 {
        0xE0 + n / 4096
    } else {
        0xF0 + n / 262144
    }
}

/// The number of leading characters that `a` and `b` share.
fn common_prefix_len(a: &Vec<char>, b: &Vec<char>) -> (n: usize)
    ensures
        n == common_len(a@, b@),
        n <= a@.len(),
        n <= b@.len(),
{
    let mut i: usize = 0;
    assert(a@.skip(0) =~= a@);
    assert(b@.skip(0) =~= b@);
    while i < a.len() && i < b.len() && a[i] == b[i]
        invariant
            i <= a@.len(),
            i <= b@.len(),
            common_len(a@, b@) == i + common_len(a@.skip(i as int), b@.skip(i as int)),
        decreases a.len() - i,
    {
        assert(a@.skip(i as int).drop_first() =~= a@.skip(i + 1));
        assert(b@.skip(i as int).drop_first() =~= b@.skip(i + 1));
        i = i + 1;
    }
    i
}

proof fn lemma_lcp_len_bound(first: Seq<char>, others: Seq<Seq<char>>)
    ensures
        lcp_len_with(first, others) <= first.len(),
    decreases others.len(),
{
    if others.len() > 0 {
        lemma_lcp_len_bound(first, others.drop_last());
    }
}

proof fn lemma_common_len_bound(a: Seq<char>, b: Seq<char>)
    ensures
        common_len(a, b) <= a.len(),
        common_len(a, b) <= b.len(),
    decreases a.len(),
{
    if a.len() > 0 && b.len() > 0 && a[0] == b[0] {
        lemma_common_len_bound(a.drop_first(), b.drop_first());
    }
}

/// The first `common_len(a, b)` characters of `a` and `b` agree.
proof fn lemma_common_len_agree(a: Seq<char>, b: Seq<char>)
    ensures
        a.take(common_len(a, b) as int) =~= b.take(common_len(a, b) as int),
    decreases a.len(),
{
    lemma_common_len_bound(a, b);
    if a.len() > 0 && b.len() > 0 && a[0] == b[0] {
        lemma_common_len_agree(a.drop_first(), b.drop_first());
        let c = common_len(a.drop_first(), b.drop_first()) as int;
        lemma_common_len_bound(a.drop_first(), b.drop_first());
        assert forall|i: int| 0 <= i < c + 1 implies #[trigger] a.take(c + 1)[i] == b.take(c + 1)[i] by {
            if i > 0 {
                assert(a.drop_first().take(c)[i - 1] == b.drop_first().take(c)[i - 1]);
            }
        }
    }
}

/// A prefix of both `a` and `b` is no longer than `common_len(a, b)`.
proof fn lemma_common_len_max(a: Seq<char>, b: Seq<char>, p: Seq<char>)
    requires
        p.is_prefix_of(a),
        p.is_prefix_of(b),
    ensures
        p.len() <= common_len(a, b),
    decreases a.len(),
{
    if p.len() > 0 {
        assert(a[0] == p[0] && b[0] == p[0]);
        assert(p.drop_first().is_prefix_of(a.drop_first())) by {
            assert forall|i: int| 0 <= i < p.drop_first().len() implies p.drop_first()[i] == a.drop_first()[i] by {
                assert(p[i + 1] == a[i + 1]);
            }
        }
        assert(p.drop_first().is_prefix_of(b.drop_first())) by {
            assert forall|i: int| 0 <= i < p.drop_first().len() implies p.drop_first()[i] == b.drop_first()[i] by {
                assert(p[i + 1] == b[i + 1]);
            }
        }
        lemma_common_len_max(a.drop_first(), b.drop_first(), p.drop_first());
    }
}

/// `lcp_len_with(first, others)` is at most what `first` shares with each of
/// `others`.
proof fn lemma_lcp_len_le(first: Seq<char>, others: Seq<Seq<char>>, j: int)
    requires
        0 <= j < others.len(),
    ensures
        lcp_len_with(first, others) <= common_len(first, others[j]),
    decreases others.len(),
{
    if j < others.len() - 1 {
        lemma_lcp_len_le(first, others.drop_last(), j);
        assert(others.drop_last()[j] == others[j]);
    }
}

/// `lcp_len_with(first, others)` is the length of `first` or what `first`
/// shares with one of `others`.
proof fn lemma_lcp_len_attained(first: Seq<char>, others: Seq<Seq<char>>)
    ensures
        lcp_len_with(first, others) == first.len()
            || exists|j: int| 0 <= j < others.len() && lcp_len_with(first, others) == common_len(first, #[trigger] others[j]),
    decreases others.len(),
{
    if others.len() > 0 {
        lemma_lcp_len_attained(first, others.drop_last());
        let m = lcp_len_with(first, others.drop_last());
        if common_len(first, others.last()) >= m && m != first.len() {
            let j = choose|j: int| 0 <= j < others.drop_last().len() && m == common_len(first, #[trigger] others.drop_last()[j]);
            assert(others[j] == others.drop_last()[j]);
        }
        if common_len(first, others.last()) < m {
            assert(others[others.len() - 1] == others.last());
        }
    }
}

/// Whether `p` is a prefix of each of the strings.
pub open spec fn is_common_prefix(p: Seq<char>, ss: Seq<Seq<char>>) -> bool {
    forall|i: int| 0 <= i < ss.len() ==> p.is_prefix_of(#[trigger] ss[i])
}

/// The completion offered without a highlighted suggestion is a prefix of
/// every matching suggestion, and no longer common prefix exists.
pub proof fn law_completion_is_longest_common_prefix(ss: Seq<Seq<char>>)
    requires
        ss.len() > 0,
    ensures
        is_common_prefix(longest_prefix(ss), ss),
        forall|p: Seq<char>| #[trigger] is_common_prefix(p, ss) ==> p.len() <= longest_prefix(ss).len(),
{
    let first = ss[0];
    let others = ss.drop_first();
    let k = lcp_len_with(first, others);
    lemma_lcp_len_bound(first, others);
    assert(longest_prefix(ss) == first.take(k as int));
    assert forall|i: int| 0 <= i < ss.len() implies longest_prefix(ss).is_prefix_of(#[trigger] ss[i]) by {
        if i > 0 {
            assert(others[i - 1] == ss[i]);
            lemma_lcp_len_le(first, others, i - 1);
            lemma_common_len_agree(first, ss[i]);
            lemma_common_len_bound(first, ss[i]);
            let c = common_len(first, ss[i]) as int;
            assert forall|t: int| 0 <= t < k implies first.take(k as int)[t] == ss[i][t] by {
                assert(first.take(c)[t] == ss[i].take(c)[t]);
            }
        }
    }
    assert forall|p: Seq<char>| #[trigger] is_common_prefix(p, ss) implies p.len() <= longest_prefix(ss).len() by {
        assert(p.is_prefix_of(ss[0]));
        lemma_lcp_len_attained(first, others);
        if k != first.len() {
            let j = choose|j: int| 0 <= j < others.len() && k == common_len(first, #[trigger] others[j]);
            assert(others[j] == ss[j + 1]);
            assert(p.is_prefix_of(ss[j + 1]));
            lemma_common_len_max(first, others[j], p);
        }
    }
}

/// The suggestions offered are exactly those of the given ones whose
/// lower-case form contains the lower-case input.
pub proof fn law_suggestions_are_the_matching_ones(ss: Seq<Seq<char>>, input: Seq<char>)
    ensures
        forall|x: Seq<char>| #[trigger] matching_suggestions(ss, input).contains(x)
            <==> (ss.contains(x) && contains_text(lowercase(x), lowercase(input))),
    decreases ss.len(),
{
    if ss.len() > 0 {
        let dl = ss.drop_last();
        let l = ss.last();
        law_suggestions_are_the_matching_ones(dl, input);
        let prev = matching_suggestions(dl, input);
        assert forall|x: Seq<char>| ss.contains(x) <==> (dl.contains(x) || x == l) by {
            if ss.contains(x) {
                let i = choose|i: int| 0 <= i < ss.len() && ss[i] == x;
                if i < ss.len() - 1 {
                    assert(dl[i] == x);
                }
            }
            if dl.contains(x) {
                let i = choose|i: int| 0 <= i < dl.len() && dl[i] == x;
                assert(ss[i] == x);
            }
            if x == l {
                assert(ss[ss.len() - 1] == x);
            }
        }
        assert forall|x: Seq<char>| prev.push(l).contains(x) <==> (prev.contains(x) || x == l) by {
            if prev.push(l).contains(x) {
                let i = choose|i: int| 0 <= i < prev.push(l).len() && prev.push(l)[i] == x;
                if i < prev.len() {
                    assert(prev[i] == x);
                }
            }
            if prev.contains(x) {
                let i = choose|i: int| 0 <= i < prev.len() && prev[i] == x;
                assert(prev.push(l)[i] == x);
            }
            if x == l {
                assert(prev.push(l)[prev.len() as int] == x);
            }
        }
        let m = matching_suggestions(ss, input);
        if contains_text(lowercase(l), lowercase(input)) {
            assert(m == prev.push(l));
        } else {
            assert(m == prev);
        }
        assert forall|x: Seq<char>| #[trigger] m.contains(x)
            <==> (ss.contains(x) && contains_text(lowercase(x), lowercase(input))) by {
            assert(prev.contains(x) <==> (dl.contains(x) && contains_text(lowercase(x), lowercase(input))));
        }
    }
}

/// Whether the longest common prefix of the strings, counted in bytes, ends
/// on a character boundary (see `prefix_ends_on_char`).
fn check_prefix_ends_on_char(strings: &Vec<String>) -> (b: bool)
    ensures
        b == prefix_ends_on_char(string_views(strings@)),
{
    let ghost ss = string_views(strings@);
    if strings.len() <= 1 {
        return true;
    }
    let first = chars_of(strings[0].as_str());
    assert(ss[0] == strings@[0]@);
    let mut others: Vec<Vec<char>> = Vec::new();
    let mut k: usize = first.len();
    let mut i: usize = 1;
    assert(ss.drop_first().take(0) =~= Seq::<Seq<char>>::empty());
    while i < strings.len()
        invariant
            1 <= i <= strings@.len(),
            ss == string_views(strings@),
            first@ == ss[0],
            others@.len() == i - 1,
            forall|j: int| 0 <= j < others@.len() ==> #[trigger] others@[j]@ == ss[j + 1],
            k == lcp_len_with(ss[0], ss.drop_first().take(i - 1)),
        decreases strings.len() - i,
    {
        let o = chars_of(strings[i].as_str());
        assert(o@ == ss[i as int]);
        let c = common_prefix_len(&first, &o);
        assert(ss.drop_first().take(i as int).drop_last() =~= ss.drop_first().take(i - 1));
        assert(ss.drop_first().take(i as int).last() == ss[i as int]);
        if c < k {
            k = c;
        }
        others.push(o);
        i = i + 1;
    }
    assert(ss.drop_first().take(i - 1) =~= ss.drop_first());
    proof {
        lemma_lcp_len_bound(ss[0], ss.drop_first());
    }
    let mut j: usize = 0;
    while j < others.len()
        invariant
            j <= others@.len(),
            ss == string_views(strings@),
            others@.len() == ss.len() - 1,
            ss.len() >= 2,
            first@ == ss[0],
            forall|m: int| 0 <= m < others@.len() ==> #[trigger] others@[m]@ == ss[m + 1],
            k == lcp_len_with(ss[0], ss.drop_first()),
            k <= ss[0].len(),
            forall|m: int| 1 <= m < j + 1 ==> !(#[trigger] common_len(ss[0], ss[m]) == k && (k >= ss[0].len() || k >= ss[m].len()
                || utf8_first_byte(ss[0][k as int]) != utf8_first_byte(ss[m][k as int]))),
        decreases others.len() - j,
    {
        let o = &others[j];
        assert(o@ == ss[j + 1]);
        let c = common_prefix_len(&first, o);
        let ghost w = j + 1;
        assert(c == common_len(ss[0], ss[w]));
        if c == k {
            if k >= first.len() || k >= o.len() {
                assert(1 <= w < ss.len() && common_len(ss[0], ss[w]) == k && (k >= ss[0].len() || k >= ss[w].len()));
                return true;
            }
            if first_byte(first[k]) != first_byte(o[k]) {
                assert(1 <= w < ss.len() && common_len(ss[0], ss[w]) == k
                    && utf8_first_byte(ss[0][k as int]) != utf8_first_byte(ss[w][k as int]));
                return true;
            }
        }
        j = j + 1;
    }
    false
}

impl CustomAutocomplete {
    /// An autocompleter offering `suggestions`.
    pub fn new(suggestions: Vec<String>) -> (a: Self)
        ensures
            a.suggestions@ == suggestions@,
    {
        CustomAutocomplete { suggestions }
    }

    /// The suggestions that contain the input, ignoring case, in order.
    pub fn get_suggestions(&self, input: &str) -> (r: Vec<String>)
        ensures
            string_views(r@) == matching_suggestions(string_views(self.suggestions@), input@),
            input@.len() == 0 ==> string_views(r@) == string_views(self.suggestions@),
    {
        let input_lower = to_lowercase(input);
        let ghost ss = string_views(self.suggestions@);
        let mut r: Vec<String> = Vec::new();
        let mut i: usize = 0;
        while i < self.suggestions.len()
            invariant
                i <= self.suggestions@.len(),
                ss == string_views(self.suggestions@),
                input_lower@ == lowercase(input@),
                string_views(r@) == matching_suggestions(ss.take(i as int), input@),
                input@.len() == 0 ==> input_lower@.len() == 0 && string_views(r@) == ss.take(i as int),
            decreases self.suggestions.len() - i,
        {
            assert(ss.take(i + 1).drop_last() =~= ss.take(i as int));
            assert(ss.take(i + 1).last() == self.suggestions@[i as int]@);
            let s_lower = to_lowercase(self.suggestions[i].as_str());
            proof {
                if input@.len() == 0 {
                    assert(input_lower@.is_prefix_of(s_lower@.skip(0)));
                }
            }
            if contains_str(s_lower.as_str(), input_lower.as_str()) {
                let ghost before = string_views(r@);
                r.push(self.suggestions[i].clone());
                assert(string_views(r@) =~= before.push(self.suggestions@[i as int]@));
            }
            i = i + 1;
        }
        assert(ss.take(i as int) =~= ss);
        r
    }

    /// The completion of the input: the highlighted suggestion when there is
    /// one, else the longest common prefix of the matching suggestions.
    /// `None` when that prefix, counted in bytes, would end inside a character
    /// (see `prefix_ends_on_char`), where no completion can be cut.
    pub fn get_completion(&self, input: &str, highlighted_suggestion: Option<String>) -> (r: Option<String>)
        ensures
            match highlighted_suggestion {
                Some(s) => r == Some(s),
                None => {
                    let m = matching_suggestions(string_views(self.suggestions@), input@);
                    if prefix_ends_on_char(m) {
                        r matches Some(x) && x@ == longest_prefix(m)
                    } else {
                        r is None
                    }
                },
            },
    {
        match highlighted_suggestion {
            Some(s) => Some(s),
            None => {
                let m = self.get_suggestions(input);
                if check_prefix_ends_on_char(&m) {
                    Some(longest_common_prefix(&m))
                } else {
                    None
                }
            },
        }
    }
}

} // verus!
