//! Character-level text utilities with their specifications.

use vstd::prelude::*;

verus! {

/// The result of replacing every non-overlapping occurrence of `pat` in `s`,
/// scanning from the left, by `rep` (the behaviour of `str::replace` for a
/// non-empty pattern).
pub open spec fn replace_all(s: Seq<char>, pat: Seq<char>, rep: Seq<char>) -> Seq<char>
    decreases s.len(),
{
    if s.len() == 0 || pat.len() == 0 {
        s
    } else if pat.is_prefix_of(s) {
        rep + replace_all(s.skip(pat.len() as int), pat, rep)
    } else {
        seq![s[0]] + replace_all(s.drop_first(), pat, rep)
    }
}

/// Appends one character to a string (`String::push`).
#[verifier::external_body]
pub(crate) fn push_char(s: &mut String, c: char)
    ensures
        final(s)@ == old(s)@.push(c),
{
    s.push(c);
}

/// The characters of `s`, one per element.
pub fn chars_of(s: &str) -> (v: Vec<char>)
    ensures
        v@ == s@,
{
    let mut v: Vec<char> = Vec::new();
    for c in it: s.chars()
        invariant
            it.seq() == s@,
            v@ == s@.take(it.index() as int),
    {
        v.push(c);
    }
    v
}

/// Builds a string from its characters.
pub fn string_of(v: &[char]) -> (s: String)
    ensures
        s@ == v@,
{
    let mut s = String::new();
    let mut i: usize = 0;
    while i < v.len()
        invariant
            i <= v.len(),
            s@ == v@.subrange(0, i as int),
        decreases v.len() - i,
    {
        push_char(&mut s, v[i]);
        assert(v@.subrange(0, i + 1) == v@.subrange(0, i as int).push(v@[i as int]));
        i = i + 1;
    }
    assert(v@.subrange(0, v@.len() as int) == v@);
    s
}

/// Appends the characters of `xs` to `out`.
pub fn append_chars(out: &mut Vec<char>, xs: &[char])
    ensures
        final(out)@ == old(out)@ + xs@,
{
    let mut i: usize = 0;
    while i < xs.len()
        invariant
            i <= xs.len(),
            out@ == old(out)@ + xs@.subrange(0, i as int),
        decreases xs.len() - i,
    {
        out.push(xs[i]);
        assert(xs@.subrange(0, i + 1) == xs@.subrange(0, i as int).push(xs@[i as int]));
        i = i + 1;
    }
    assert(xs@.subrange(0, xs@.len() as int) == xs@);
}

/// Whether `pat` occurs in `s` starting at position `i`.
pub fn occurs_at(s: &[char], i: usize, pat: &[char]) -> (r: bool)
    requires
        i <= s.len(),
    ensures
        r == pat@.is_prefix_of(s@.skip(i as int)),
{
    if pat.len() > s.len() - i {
        return false;
    }
    let mut j: usize = 0;
    while j < pat.len()
        invariant
            j <= pat.len(),
            i + pat.len() <= s.len(),
            forall|k: int| 0 <= k < j ==> pat@[k] == s@[i + k],
        decreases pat.len() - j,
    {
        if pat[j] != s[i + j] {
            assert(pat@[j as int] != s@.skip(i as int)[j as int]);
            return false;
        }
        j = j + 1;
    }
    assert(pat@ =~= s@.skip(i as int).subrange(0, pat@.len() as int));
    true
}

/// Unfolding of `replace_all` at a position where the pattern occurs.
proof fn lemma_replace_step_match(s: Seq<char>, i: int, pat: Seq<char>, rep: Seq<char>)
    requires
        0 <= i < s.len(),
        pat.len() > 0,
        pat.is_prefix_of(s.skip(i)),
    ensures
        replace_all(s.skip(i), pat, rep) == rep + replace_all(s.skip(i + pat.len()), pat, rep),
{
    assert(s.skip(i).skip(pat.len() as int) =~= s.skip(i + pat.len()));
}

/// Unfolding of `replace_all` at a position where the pattern does not occur.
proof fn lemma_replace_step_other(s: Seq<char>, i: int, pat: Seq<char>, rep: Seq<char>)
    requires
        0 <= i < s.len(),
        pat.len() > 0,
        !pat.is_prefix_of(s.skip(i)),
    ensures
        replace_all(s.skip(i), pat, rep) == seq![s[i]] + replace_all(s.skip(i + 1), pat, rep),
{
    assert(s.skip(i).drop_first() =~= s.skip(i + 1));
}

/// Replaces every non-overlapping occurrence of `pat` in `s` by `rep`,
/// scanning from the left.
pub fn replace_chars(s: &[char], pat: &[char], rep: &[char]) -> (out: Vec<char>)
    requires
        pat@.len() > 0,
    ensures
        out@ == replace_all(s@, pat@, rep@),
{
    let mut out: Vec<char> = Vec::new();
    let mut i: usize = 0;
    assert(s@.skip(0) =~= s@);
    while i < s.len()
        invariant
            i <= s.len(),
            pat@.len() > 0,
            out@ + replace_all(s@.skip(i as int), pat@, rep@) == replace_all(s@, pat@, rep@),
        decreases s.len() - i,
    {
        if occurs_at(s, i, pat) {
            proof {
                lemma_replace_step_match(s@, i as int, pat@, rep@);
            }
            let ghost prev = out@;
            append_chars(&mut out, rep);
            assert(out@ + replace_all(s@.skip(i + pat@.len()), pat@, rep@)
                =~= prev + replace_all(s@.skip(i as int), pat@, rep@));
            i = i + pat.len();
        } else {
            proof {
                lemma_replace_step_other(s@, i as int, pat@, rep@);
            }
            let ghost prev = out@;
            out.push(s[i]);
            assert(out@ + replace_all(s@.skip(i + 1), pat@, rep@)
                =~= prev + replace_all(s@.skip(i as int), pat@, rep@));
            i = i + 1;
        }
    }
    assert(s@.skip(i as int) =~= Seq::<char>::empty());
    assert(out@ + Seq::<char>::empty() =~= out@);
    out
}

/// `str::replace` for a non-empty pattern: every non-overlapping occurrence
/// of `pat` in `s`, scanning from the left, is replaced by `rep`.
pub fn replace(s: &str, pat: &str, rep: &str) -> (out: String)
    requires
        pat@.len() > 0,
    ensures
        out@ == replace_all(s@, pat@, rep@),
{
    let sc = chars_of(s);
    let pc = chars_of(pat);
    let rc = chars_of(rep);
    let oc = replace_chars(sc.as_slice(), pc.as_slice(), rc.as_slice());
    string_of(oc.as_slice())
}

/// The position of the first `c` in `s`, or the length of `s` when there is none.
pub open spec fn index_of_char(s: Seq<char>, c: char) -> int
    decreases s.len(),
{
    if s.len() == 0 {
        0
    } else if s[0] == c {
        0
    } else {
        1 + index_of_char(s.drop_first(), c)
    }
}

/// `index_of_char` is the first position holding `c`.
pub proof fn lemma_index_of_char(s: Seq<char>, c: char, i: int)
    requires
        0 <= i <= s.len(),
        forall|j: int| 0 <= j < i ==> s[j] != c,
        i < s.len() ==> s[i] == c,
    ensures
        index_of_char(s, c) == i,
    decreases i,
{
    if i > 0 {
        lemma_index_of_char(s.drop_first(), c, i - 1);
    }
}

/// The position of the first `c` in `s` at or after `from`, or the length
/// of `s` when there is none.
pub fn find_char(s: &[char], from: usize, c: char) -> (i: usize)
    requires
        from <= s.len(),
    ensures
        from <= i <= s.len(),
        i - from == index_of_char(s@.skip(from as int), c),
        forall|j: int| from <= j < i ==> s@[j] != c,
        i < s.len() ==> s@[i as int] == c,
{
    let mut i = from;
    while i < s.len() && s[i] != c
        invariant
            from <= i <= s.len(),
            forall|j: int| from <= j < i ==> s@[j] != c,
        decreases s.len() - i,
    {
        i = i + 1;
    }
    proof {
        lemma_index_of_char(s@.skip(from as int), c, i - from);
    }
    i
}

/// The characters of `s` from `a` up to (not including) `b`.
pub fn slice_string(s: &[char], a: usize, b: usize) -> (r: String)
    requires
        a <= b <= s.len(),
    ensures
        r@ == s@.subrange(a as int, b as int),
{
    let mut v: Vec<char> = Vec::new();
    let mut i = a;
    while i < b
        invariant
            a <= i <= b <= s.len(),
            v@ == s@.subrange(a as int, i as int),
        decreases b - i,
    {
        v.push(s[i]);
        assert(s@.subrange(a as int, i + 1) =~= s@.subrange(a as int, i as int).push(s@[i as int]));
        i = i + 1;
    }
    string_of(v.as_slice())
}

/// Lexicographic order of character sequences by code point (the order of
/// `str` comparison, which compares UTF-8 bytes).
pub open spec fn lex_lt(a: Seq<char>, b: Seq<char>) -> bool
    decreases a.len(),
{
    if b.len() == 0 {
        false
    } else if a.len() == 0 {
        true
    } else if a[0] != b[0] {
        (a[0] as int) < (b[0] as int)
    } else {
        lex_lt(a.drop_first(), b.drop_first())
    }
}

/// `lex_lt` is irreflexive.
pub proof fn lemma_lex_irreflexive(a: Seq<char>)
    ensures
        !lex_lt(a, a),
    decreases a.len(),
{
    if a.len() > 0 {
        lemma_lex_irreflexive(a.drop_first());
    }
}

/// `lex_lt` is transitive.
pub proof fn lemma_lex_transitive(a: Seq<char>, b: Seq<char>, c: Seq<char>)
    requires
        lex_lt(a, b),
        lex_lt(b, c),
    ensures
        lex_lt(a, c),
    decreases a.len(),
{
    if a.len() > 0 && b.len() > 0 && c.len() > 0 && a[0] == b[0] && b[0] == c[0] {
        lemma_lex_transitive(a.drop_first(), b.drop_first(), c.drop_first());
    }
}

/// Two different sequences are ordered one way or the other.
pub proof fn lemma_lex_total(a: Seq<char>, b: Seq<char>)
    requires
        a != b,
    ensures
        lex_lt(a, b) || lex_lt(b, a),
    decreases a.len(),
{
    if a.len() > 0 && b.len() > 0 && a[0] == b[0] {
        if a.drop_first() == b.drop_first() {
            assert(a =~= seq![a[0]] + a.drop_first());
            assert(b =~= seq![b[0]] + b.drop_first());
        }
        lemma_lex_total(a.drop_first(), b.drop_first());
    } else if a.len() == 0 && b.len() == 0 {
        assert(a =~= b);
    }
}

/// Whether `a` comes before `b` in lexicographic order (`a < b` on strings).
pub fn str_less(a: &str, b: &str) -> (r: bool)
    ensures
        r == lex_lt(a@, b@),
{
    let x = chars_of(a);
    let y = chars_of(b);
    let mut i: usize = 0;
    assert(x@.skip(0) =~= x@);
    assert(y@.skip(0) =~= y@);
    while i < x.len() && i < y.len() && x[i] == y[i]
        invariant
            i <= x@.len(),
            i <= y@.len(),
            lex_lt(x@, y@) == lex_lt(x@.skip(i as int), y@.skip(i as int)),
        decreases x.len() - i,
    {
        assert(x@.skip(i as int).drop_first() =~= x@.skip(i + 1));
        assert(y@.skip(i as int).drop_first() =~= y@.skip(i + 1));
        i = i + 1;
    }
    if i == y.len() {
        false
    } else if i == x.len() {
        true
    } else {
        assert(x@.skip(i as int)[0] == x@[i as int]);
        assert(y@.skip(i as int)[0] == y@[i as int]);
        x[i] < y[i]
    }
}

/// The models of a sequence of strings.
pub open spec fn string_views(s: Seq<String>) -> Seq<Seq<char>> {
    s.map_values(|e: String| e@)
}

/// Strictly increasing in lexicographic order.
pub open spec fn sorted_strictly(s: Seq<Seq<char>>) -> bool {
    forall|i: int, j: int| 0 <= i < j < s.len() ==> lex_lt(s[i], s[j])
}

/// Sorts strings that are all different into lexicographic order.
pub fn sort_strings(v: Vec<String>) -> (r: Vec<String>)
    requires
        string_views(v@).no_duplicates(),
    ensures
        r@.len() == v@.len(),
        sorted_strictly(string_views(r@)),
        forall|s: Seq<char>| string_views(r@).contains(s) <==> string_views(v@).contains(s),
{
    let mut r: Vec<String> = Vec::new();
    let mut k: usize = 0;
    while k < v.len()
        invariant
            k <= v@.len(),
            string_views(v@).no_duplicates(),
            r@.len() == k,
            sorted_strictly(string_views(r@)),
            forall|s: Seq<char>| string_views(r@).contains(s) <==> string_views(v@.take(k as int)).contains(s),
        decreases v.len() - k,
    {
        let x = v[k].clone();
        let ghost xs = x@;
        let ghost before = string_views(r@);
        assert(string_views(v@)[k as int] == xs);
        assert(!before.contains(xs)) by {
            if before.contains(xs) {
                let vt = string_views(v@.take(k as int));
                let j = choose|j: int| 0 <= j < vt.len() && vt[j] == xs;
                assert(string_views(v@)[j] == xs);
            }
        }
        let mut p: usize = 0;
        while p < r.len() && !str_less(x.as_str(), r[p].as_str())
            invariant
                p <= r@.len(),
                before == string_views(r@),
                xs == x@,
                !before.contains(xs),
                forall|j: int| 0 <= j < p ==> lex_lt(#[trigger] before[j], xs),
            decreases r.len() - p,
        {
            proof {
                assert(before[p as int] == r@[p as int]@);
                if before[p as int] != xs {
                    lemma_lex_total(before[p as int], xs);
                }
            }
            p = p + 1;
        }
        r.insert(p, x);
        proof {
            let after = string_views(r@);
            assert(after =~= before.insert(p as int, xs));
            assert forall|i: int, j: int| 0 <= i < j < after.len() implies lex_lt(after[i], after[j]) by {
                if j < p {
                } else if i < p && j == p {
                } else if i < p && j > p {
                    assert(lex_lt(before[i], xs));
                    assert(lex_lt(xs, before[p as int]) || p == before.len());
                    if p as int <= j - 1 {
                        if p < before.len() {
                            if j - 1 > p {
                                lemma_lex_transitive(xs, before[p as int], before[j - 1]);
                            }
                            lemma_lex_transitive(before[i], xs, before[j - 1]);
                        }
                    }
                } else if i == p {
                    if j - 1 > p {
                        lemma_lex_transitive(xs, before[p as int], before[j - 1]);
                    }
                } else {
                }
            }
            assert(v@.take(k + 1) =~= v@.take(k as int).push(v@[k as int]));
            assert(string_views(v@.take(k + 1)) =~= string_views(v@.take(k as int)).push(xs));
            let vt = string_views(v@.take(k as int));
            let vk = string_views(v@.take(k + 1));
            assert forall|s: Seq<char>| after.contains(s) <==> (before.contains(s) || s == xs) by {
                if after.contains(s) {
                    let j = choose|j: int| 0 <= j < after.len() && after[j] == s;
                    if j < p {
                        assert(before[j] == s);
                    } else if j > p {
                        assert(before[j - 1] == s);
                    }
                }
                if before.contains(s) {
                    let j = choose|j: int| 0 <= j < before.len() && before[j] == s;
                    if j < p {
                        assert(after[j] == s);
                    } else {
                        assert(after[j + 1] == s);
                    }
                }
                if s == xs {
                    assert(after[p as int] == s);
                }
            }
            assert forall|s: Seq<char>| vk.contains(s) <==> (vt.contains(s) || s == xs) by {
                if vk.contains(s) {
                    let j = choose|j: int| 0 <= j < vk.len() && vk[j] == s;
                    if j < k {
                        assert(vt[j] == s);
                    }
                }
                if vt.contains(s) {
                    let j = choose|j: int| 0 <= j < vt.len() && vt[j] == s;
                    assert(vk[j] == s);
                }
                if s == xs {
                    assert(vk[k as int] == s);
                }
            }
        }
        k = k + 1;
    }
    assert(v@.take(v@.len() as int) =~= v@);
    r
}

/// The pieces of `s` between occurrences of `c` (the behaviour of
/// `str::split` with a character).
pub open spec fn split_char(s: Seq<char>, c: char) -> Seq<Seq<char>>
    decreases s.len(),
{
    let i = index_of_char(s, c);
    if i < 0 || i >= s.len() {
        seq![s]
    } else {
        seq![s.take(i)] + split_char(s.skip(i + 1), c)
    }
}

/// `index_of_char` lies within the sequence.
pub proof fn lemma_index_of_char_bounds(s: Seq<char>, c: char)
    ensures
        0 <= index_of_char(s, c) <= s.len(),
    decreases s.len(),
{
    if s.len() > 0 {
        lemma_index_of_char_bounds(s.drop_first(), c);
    }
}

/// Splits `s` at every `c`.
pub fn split_on(s: &str, c: char) -> (r: Vec<String>)
    ensures
        string_views(r@) == split_char(s@, c),
{
    let cs = chars_of(s);
    let mut r: Vec<String> = Vec::new();
    let mut start: usize = 0;
    assert(cs@.skip(0) =~= cs@);
    loop
        invariant
            start <= cs@.len(),
            cs@ == s@,
            string_views(r@) + split_char(cs@.skip(start as int), c) == split_char(cs@, c),
        decreases cs@.len() - start,
    {
        let i = find_char(cs.as_slice(), start, c);
        let piece = slice_string(cs.as_slice(), start, i);
        let ghost rest = cs@.skip(start as int);
        proof {
            lemma_index_of_char_bounds(rest, c);
        }
        let ghost before = string_views(r@);
        r.push(piece);
        assert(string_views(r@) =~= before.push(cs@.subrange(start as int, i as int)));
        if i == cs.len() {
            assert(rest.take(i - start) =~= rest);
            assert(split_char(rest, c) == seq![rest]);
            assert(cs@.subrange(start as int, i as int) =~= rest);
            assert(string_views(r@) =~= before + split_char(rest, c));
            assert(string_views(r@) == split_char(cs@, c));
            return r;
        }
        assert(rest.take(i - start) =~= cs@.subrange(start as int, i as int));
        assert(rest.skip(i - start + 1) =~= cs@.skip(i + 1));
        assert(split_char(rest, c) == seq![rest.take(i - start)] + split_char(rest.skip(i - start + 1), c));
        assert(string_views(r@) + split_char(cs@.skip(i + 1), c) =~= before + split_char(rest, c));
        start = i + 1;
    }
}

/// What `str::to_lowercase` gives for a text (Unicode lower-case mapping).
pub uninterp spec fn lowercase(s: Seq<char>) -> Seq<char>;

/// Whether every character is ASCII.
pub open spec fn is_ascii_text(s: Seq<char>) -> bool {
    forall|i: int| 0 <= i < s.len() ==> (#[trigger] s[i] as int) < 128
}

/// The ASCII lower-case form of a character: `A`-`Z` become `a`-`z`.
pub open spec fn ascii_lower(c: char) -> char {
    if 'A' <= c && c <= 'Z' {
        ((c as int) + 32) as char
    } else {
        c
    }
}

/// The lower-case form of `s`, by `str::to_lowercase`. The contract claims
/// that the result is the one named `lowercase`, that the empty text stays
/// empty, and that an ASCII text is lowered character by character (as the
/// Unicode lower-case mapping does for ASCII letters); what other characters
/// become is not stated.
#[verifier::external_body]
pub(crate) fn to_lowercase(s: &str) -> (r: String)
    ensures
        r@ == lowercase(s@),
        s@.len() == 0 ==> r@.len() == 0,
        is_ascii_text(s@) ==> r@ == s@.map_values(|c: char| ascii_lower(c)),
{
    s.to_lowercase()
}

/// Whether `s` starts with `p`.
pub fn has_prefix(s: &str, p: &str) -> (b: bool)
    ensures
        b == p@.is_prefix_of(s@),
{
    let sc = chars_of(s);
    let pc = chars_of(p);
    assert(sc@.skip(0) =~= sc@);
    occurs_at(sc.as_slice(), 0, pc.as_slice())
}

/// Whether `p` occurs somewhere in `s`.
pub open spec fn contains_text(s: Seq<char>, p: Seq<char>) -> bool {
    exists|i: int| 0 <= i <= s.len() && #[trigger] p.is_prefix_of(s.skip(i))
}

/// Replacing a pattern that does not occur in a text leaves the text as it is.
pub proof fn lemma_replace_absent(s: Seq<char>, pat: Seq<char>, rep: Seq<char>)
    requires
        !contains_text(s, pat),
    ensures
        replace_all(s, pat, rep) == s,
    decreases s.len(),
{
    if s.len() > 0 && pat.len() > 0 {
        assert(s.skip(0) =~= s);
        assert(!pat.is_prefix_of(s.skip(0)));
        assert forall|i: int| 0 <= i <= s.drop_first().len() implies !#[trigger] pat.is_prefix_of(s.drop_first().skip(i)) by {
            assert(s.drop_first().skip(i) =~= s.skip(i + 1));
        }
        lemma_replace_absent(s.drop_first(), pat, rep);
        assert(seq![s[0]] + s.drop_first() =~= s);
    }
}

/// Whether `p` occurs somewhere in `s` (`str::contains`).
pub fn contains_str(s: &str, p: &str) -> (b: bool)
    ensures
        b == contains_text(s@, p@),
{
    let sc = chars_of(s);
    let pc = chars_of(p);
    let mut i: usize = 0;
    loop
        invariant
            i <= sc@.len(),
            sc@ == s@,
            pc@ == p@,
            forall|j: int| 0 <= j < i ==> !#[trigger] p@.is_prefix_of(s@.skip(j)),
        decreases sc@.len() - i,
    {
        if occurs_at(sc.as_slice(), i, pc.as_slice()) {
            return true;
        }
        if i == sc.len() {
            return false;
        }
        i = i + 1;
    }
}

/// `s` without the leading characters equal to `c`.
pub open spec fn trim_start_char(s: Seq<char>, c: char) -> Seq<char>
    decreases s.len(),
{
    if s.len() > 0 && s[0] == c {
        trim_start_char(s.drop_first(), c)
    } else {
        s
    }
}

/// `s` without the trailing characters equal to `c`.
pub open spec fn trim_end_char(s: Seq<char>, c: char) -> Seq<char>
    decreases s.len(),
{
    if s.len() > 0 && s.last() == c {
        trim_end_char(s.drop_last(), c)
    } else {
        s
    }
}

/// `s` without the leading and trailing characters equal to `c`
/// (`str::trim_matches` with a character).
pub open spec fn trim_char(s: Seq<char>, c: char) -> Seq<char> {
    trim_end_char(trim_start_char(s, c), c)
}

/// `s` with the leading and trailing characters equal to `c` removed.
pub fn trim_matches(s: &str, c: char) -> (r: String)
    ensures
        r@ == trim_char(s@, c),
{
    let cs = chars_of(s);
    let mut a: usize = 0;
    assert(cs@.subrange(0, cs@.len() as int) =~= cs@);
    while a < cs.len() && cs[a] == c
        invariant
            a <= cs@.len(),
            trim_start_char(cs@, c) == trim_start_char(cs@.subrange(a as int, cs@.len() as int), c),
        decreases cs.len() - a,
    {
        assert(cs@.subrange(a as int, cs@.len() as int).drop_first() =~= cs@.subrange(a + 1, cs@.len() as int));
        a = a + 1;
    }
    let mut b: usize = cs.len();
    assert(trim_start_char(cs@, c) == cs@.subrange(a as int, b as int));
    while b > a && cs[b - 1] == c
        invariant
            a <= b <= cs@.len(),
            trim_char(cs@, c) == trim_end_char(cs@.subrange(a as int, b as int), c),
        decreases b - a,
    {
        assert(cs@.subrange(a as int, b as int).drop_last() =~= cs@.subrange(a as int, b - 1));
        b = b - 1;
    }
    slice_string(cs.as_slice(), a, b)
}

} // verus!
