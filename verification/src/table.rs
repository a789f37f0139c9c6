//! String-keyed tables kept in insertion order.
//!
//! A `Table` stands for a map from strings to values; its entries are kept
//! in a `Vec`, and its model is the map in which a later entry for a key
//! wins over an earlier one. Well-formed tables hold each key once.

use vstd::prelude::*;

verus! {

/// A string-keyed table.
pub struct Table<V> {
    pub entries: Vec<(String, V)>,
}

/// The map described by a sequence of entries: a later entry for a key wins.
pub open spec fn entries_map<V: View>(s: Seq<(String, V)>) -> Map<Seq<char>, V::V>
    decreases s.len(),
{
    if s.len() == 0 {
        Map::empty()
    } else {
        entries_map(s.drop_last()).insert(s.last().0@, s.last().1@)
    }
}

/// The keys of a sequence of entries, in order.
pub open spec fn keys_of<V>(s: Seq<(String, V)>) -> Seq<Seq<char>> {
    s.map_values(|e: (String, V)| e.0@)
}

/// Whether the key at position `i` appears at no later position.
pub open spec fn is_last_index<V>(s: Seq<(String, V)>, i: int) -> bool {
    &&& 0 <= i < s.len()
    &&& forall|j: int| i < j < s.len() ==> s[j].0@ != s[i].0@
}

/// The models of a sequence of string pairs.
pub open spec fn pair_views(s: Seq<(String, String)>) -> Seq<(Seq<char>, Seq<char>)> {
    s.map_values(|e: (String, String)| (e.0@, e.1@))
}

impl<V: View> View for Table<V> {
    type V = Map<Seq<char>, V::V>;

    open spec fn view(&self) -> Map<Seq<char>, V::V> {
        entries_map(self.entries@)
    }
}

/// A key is in the map of a sequence of entries exactly when some entry has it.
pub proof fn lemma_entries_map_dom<V: View>(s: Seq<(String, V)>, k: Seq<char>)
    ensures
        entries_map(s).contains_key(k) <==> exists|i: int| 0 <= i < s.len() && s[i].0@ == k,
    decreases s.len(),
{
    if s.len() > 0 {
        lemma_entries_map_dom(s.drop_last(), k);
        if entries_map(s).contains_key(k) && s.last().0@ != k {
            let i = choose|i: int| 0 <= i < s.drop_last().len() && s.drop_last()[i].0@ == k;
            assert(s[i].0@ == k);
        }
        if exists|i: int| 0 <= i < s.len() && s[i].0@ == k {
            let i = choose|i: int| 0 <= i < s.len() && s[i].0@ == k;
            if i < s.len() - 1 {
                assert(s.drop_last()[i].0@ == k);
            }
        }
    }
}

/// The value of a key is the value of its last entry.
pub proof fn lemma_entries_map_last<V: View>(s: Seq<(String, V)>, i: int)
    requires
        is_last_index(s, i),
    ensures
        entries_map(s).contains_key(s[i].0@),
        entries_map(s)[s[i].0@] == s[i].1@,
    decreases s.len(),
{
    if i < s.len() - 1 {
        assert(is_last_index(s.drop_last(), i));
        lemma_entries_map_last(s.drop_last(), i);
    }
}

/// A key that occurs has a last occurrence.
pub proof fn lemma_last_index_exists<V>(s: Seq<(String, V)>, k: Seq<char>)
    requires
        exists|i: int| 0 <= i < s.len() && s[i].0@ == k,
    ensures
        exists|i: int| is_last_index(s, i) && s[i].0@ == k,
    decreases s.len(),
{
    if s.last().0@ == k {
        assert(is_last_index(s, s.len() - 1));
    } else {
        let i = choose|i: int| 0 <= i < s.len() && s[i].0@ == k;
        assert(s.drop_last()[i].0@ == k);
        lemma_last_index_exists(s.drop_last(), k);
        let j = choose|j: int| is_last_index(s.drop_last(), j) && s.drop_last()[j].0@ == k;
        assert forall|m: int| j < m < s.len() implies s[m].0@ != s[j].0@ by {
            if m < s.len() - 1 {
                assert(s.drop_last()[m] == s[m]);
            }
        }
        assert(is_last_index(s, j));
    }
}

impl<V: View> Table<V> {
    /// Each key occurs at most once.
    pub open spec fn wf(&self) -> bool {
        keys_of(self.entries@).no_duplicates()
    }

    /// An empty table.
    pub fn new() -> (t: Self)
        ensures
            t.wf(),
            t@ == Map::<Seq<char>, V::V>::empty(),
            t.entries@.len() == 0,
    {
        Table { entries: Vec::new() }
    }

    /// The number of entries.
    pub fn len(&self) -> (n: usize)
        ensures
            n == self.entries@.len(),
    {
        self.entries.len()
    }

    /// The position of the last entry with key `key`, if any.
    pub fn find(&self, key: &String) -> (r: Option<usize>)
        ensures
            r is None <==> !self@.contains_key(key@),
            r matches Some(i) ==> is_last_index(self.entries@, i as int)
                && self.entries@[i as int].0@ == key@,
    {
        let mut i = self.entries.len();
        while i > 0
            invariant
                i <= self.entries@.len(),
                forall|j: int| i <= j < self.entries@.len() ==> self.entries@[j].0@ != key@,
            decreases i,
        {
            i = i - 1;
            if self.entries[i].0.eq(key) {
                proof {
                    lemma_entries_map_last(self.entries@, i as int);
                }
                return Some(i);
            }
        }
        proof {
            lemma_entries_map_dom(self.entries@, key@);
        }
        None
    }

    /// The value stored for `key`, if any.
    pub fn get(&self, key: &String) -> (r: Option<&V>)
        ensures
            r is None <==> !self@.contains_key(key@),
            r matches Some(v) ==> self@.contains_key(key@) && v@ == self@[key@],
    {
        match self.find(key) {
            Some(i) => {
                proof {
                    lemma_entries_map_last(self.entries@, i as int);
                }
                Some(&self.entries[i].1)
            },
            None => None,
        }
    }

    /// Whether `key` has an entry.
    pub fn contains_key(&self, key: &String) -> (b: bool)
        ensures
            b == self@.contains_key(key@),
    {
        self.find(key).is_some()
    }

    /// Stores `value` for `key`: the last entry for the key takes the new
    /// value in place; a new key is appended at the end.
    pub fn insert(&mut self, key: String, value: V)
        ensures
            old(self).wf() ==> final(self).wf(),
            final(self)@ == old(self)@.insert(key@, value@),
            old(self)@.contains_key(key@) ==> keys_of(final(self).entries@) == keys_of(old(self).entries@),
            !old(self)@.contains_key(key@) ==> keys_of(final(self).entries@) == keys_of(old(self).entries@).push(key@),
    {
        let ghost old_entries = self.entries@;
        let ghost k = key@;
        let ghost vv = value@;
        match self.find(&key) {
            Some(i) => {
                self.entries.set(i, (key, value));
                proof {
                    let s = self.entries@;
                    assert(keys_of(s) =~= keys_of(old_entries)) by {
                        assert forall|j: int| 0 <= j < s.len() implies keys_of(s)[j] == keys_of(old_entries)[j] by {
                            if j == i {
                                assert(keys_of(s)[j] == k);
                            }
                        }
                    }
                    assert forall|j: int| 0 <= j < s.len() implies #[trigger] s[j].0@ == old_entries[j].0@ by {
                        assert(keys_of(s)[j] == keys_of(old_entries)[j]);
                    }
                    assert forall|kk: Seq<char>| #![auto] entries_map(s).contains_key(kk) <==> entries_map(old_entries).insert(k, vv).contains_key(kk) by {
                        lemma_entries_map_dom(s, kk);
                        lemma_entries_map_dom(old_entries, kk);
                        if exists|j: int| 0 <= j < old_entries.len() && old_entries[j].0@ == kk {
                            let j = choose|j: int| 0 <= j < old_entries.len() && old_entries[j].0@ == kk;
                            assert(s[j].0@ == kk);
                        }
                    }
                    assert forall|kk: Seq<char>| entries_map(s).contains_key(kk) implies entries_map(s)[kk] == entries_map(old_entries).insert(k, vv)[kk] by {
                        lemma_entries_map_dom(s, kk);
                        lemma_last_index_exists(s, kk);
                        let j = choose|j: int| is_last_index(s, j) && s[j].0@ == kk;
                        lemma_entries_map_last(s, j);
                        if j != i {
                            assert forall|m: int| j < m < old_entries.len() implies old_entries[m].0@ != old_entries[j].0@ by {
                                assert(s[m].0@ == old_entries[m].0@);
                                assert(s[j].0@ == old_entries[j].0@);
                            }
                            assert(is_last_index(old_entries, j));
                            lemma_entries_map_last(old_entries, j);
                        }
                    }
                    assert(entries_map(s) =~= entries_map(old_entries).insert(k, vv));
                }
            },
            None => {
                self.entries.push((key, value));
                proof {
                    let s = self.entries@;
                    assert(s.drop_last() =~= old_entries);
                    assert(keys_of(s) =~= keys_of(old_entries).push(k));
                    lemma_entries_map_dom(old_entries, k);
                    if keys_of(old_entries).no_duplicates() {
                        assert forall|a: int, b: int| 0 <= a < b < keys_of(s).len() implies keys_of(s)[a] != keys_of(s)[b] by {
                            if b == s.len() - 1 {
                                assert(old_entries[a].0@ == keys_of(s)[a]);
                            } else {
                                assert(keys_of(old_entries)[a] == keys_of(s)[a]);
                                assert(keys_of(old_entries)[b] == keys_of(s)[b]);
                            }
                        }
                    }
                }
            },
        }
    }

    /// Removes every entry for `key`, keeping the order of the others.
    pub fn remove(&mut self, key: &String)
        ensures
            old(self).wf() ==> final(self).wf(),
            final(self)@ == old(self)@.remove(key@),
            final(self).entries@ == without_key(old(self).entries@, key@),
    {
        let ghost s0 = self.entries@;
        let mut rest: Vec<(String, V)> = Vec::new();
        core::mem::swap(&mut rest, &mut self.entries);
        let mut kept: Vec<(String, V)> = Vec::new();
        let ghost mut i: int = 0;
        while rest.len() > 0
            invariant
                0 <= i <= s0.len(),
                rest@ == s0.skip(i),
                kept@ == without_key(s0.take(i), key@),
            decreases rest.len(),
        {
            let e = rest.remove(0);
            assert(e == s0[i]);
            assert(s0.take(i + 1).drop_last() =~= s0.take(i));
            if !e.0.eq(key) {
                kept.push(e);
            }
            proof {
                i = i + 1;
                assert(rest@ =~= s0.skip(i));
            }
        }
        assert(s0.take(i) =~= s0);
        self.entries = kept;
        proof {
            lemma_without_key_map(s0, key@);
            if keys_of(s0).no_duplicates() {
                lemma_without_key_distinct(s0, key@);
            }
        }
    }
}

/// The entries whose key is not `k`, in order.
pub open spec fn without_key<V>(s: Seq<(String, V)>, k: Seq<char>) -> Seq<(String, V)>
    decreases s.len(),
{
    if s.len() == 0 {
        s
    } else if s.last().0@ == k {
        without_key(s.drop_last(), k)
    } else {
        without_key(s.drop_last(), k).push(s.last())
    }
}

/// Dropping the entries of a key removes the key from the map.
pub proof fn lemma_without_key_map<V: View>(s: Seq<(String, V)>, k: Seq<char>)
    ensures
        entries_map(without_key(s, k)) == entries_map(s).remove(k),
    decreases s.len(),
{
    if s.len() == 0 {
        assert(entries_map(s).remove(k) =~= entries_map(s));
    } else {
        lemma_without_key_map(s.drop_last(), k);
        let w = without_key(s, k);
        if s.last().0@ != k {
            assert(w.drop_last() =~= without_key(s.drop_last(), k));
        }
        assert(entries_map(w) =~= entries_map(s).remove(k));
    }
}

/// Every key left by `without_key` was a key before.
pub proof fn lemma_without_key_keys<V>(s: Seq<(String, V)>, k: Seq<char>, x: Seq<char>)
    requires
        keys_of(without_key(s, k)).contains(x),
    ensures
        keys_of(s).contains(x),
        x != k,
    decreases s.len(),
{
    let w = without_key(s, k);
    let j = choose|j: int| 0 <= j < keys_of(w).len() && keys_of(w)[j] == x;
    if s.last().0@ == k {
        lemma_without_key_keys(s.drop_last(), k, x);
        let m = choose|m: int| 0 <= m < keys_of(s.drop_last()).len() && keys_of(s.drop_last())[m] == x;
        assert(keys_of(s)[m] == x);
    } else {
        let w0 = without_key(s.drop_last(), k);
        if j < w0.len() {
            assert(keys_of(w0)[j] == x);
            lemma_without_key_keys(s.drop_last(), k, x);
            let m = choose|m: int| 0 <= m < keys_of(s.drop_last()).len() && keys_of(s.drop_last())[m] == x;
            assert(keys_of(s)[m] == x);
        } else {
            assert(keys_of(s)[s.len() - 1] == x);
        }
    }
}

/// Dropping entries keeps keys distinct.
pub proof fn lemma_without_key_distinct<V>(s: Seq<(String, V)>, k: Seq<char>)
    requires
        keys_of(s).no_duplicates(),
    ensures
        keys_of(without_key(s, k)).no_duplicates(),
    decreases s.len(),
{
    if s.len() > 0 {
        assert(keys_of(s.drop_last()) =~= keys_of(s).drop_last());
        lemma_without_key_distinct(s.drop_last(), k);
        if s.last().0@ != k {
            let w0 = without_key(s.drop_last(), k);
            let w = without_key(s, k);
            assert forall|a: int, b: int| 0 <= a < b < keys_of(w).len() implies keys_of(w)[a] != keys_of(w)[b] by {
                if b == w.len() - 1 {
                    assert(keys_of(w0)[a] == keys_of(w)[a]);
                    if keys_of(w)[a] == keys_of(w)[b] {
                        assert(keys_of(w0).contains(keys_of(w)[a]));
                        lemma_without_key_keys(s.drop_last(), k, keys_of(w)[a]);
                        let m = choose|m: int| 0 <= m < keys_of(s.drop_last()).len() && keys_of(s.drop_last())[m] == keys_of(w)[a];
                        assert(keys_of(s)[m] == keys_of(s)[s.len() - 1]);
                    }
                } else {
                    assert(keys_of(w0)[a] == keys_of(w)[a]);
                    assert(keys_of(w0)[b] == keys_of(w)[b]);
                }
            }
        }
    }
}

impl Table<String> {
    /// A copy of the table, entry for entry.
    pub fn copy(&self) -> (t: Table<String>)
        ensures
            pair_views(t.entries@) == pair_views(self.entries@),
            keys_of(t.entries@) == keys_of(self.entries@),
            t@ == self@,
    {
        let mut out: Vec<(String, String)> = Vec::new();
        let mut i: usize = 0;
        while i < self.entries.len()
            invariant
                i <= self.entries@.len(),
                out@.len() == i,
                forall|j: int| 0 <= j < i ==> #[trigger] out@[j].0@ == self.entries@[j].0@ && out@[j].1@ == self.entries@[j].1@,
            decreases self.entries.len() - i,
        {
            out.push((self.entries[i].0.clone(), self.entries[i].1.clone()));
            i = i + 1;
        }
        let t = Table { entries: out };
        assert(pair_views(t.entries@) =~= pair_views(self.entries@));
        assert(keys_of(t.entries@) =~= keys_of(self.entries@));
        proof {
            lemma_same_pairs_same_map(t.entries@, self.entries@);
        }
        t
    }
}

/// Entries with the same keys and values describe the same map.
pub proof fn lemma_same_pairs_same_map(a: Seq<(String, String)>, b: Seq<(String, String)>)
    requires
        pair_views(a) == pair_views(b),
    ensures
        entries_map(a) == entries_map(b),
    decreases a.len(),
{
    assert(pair_views(a).len() == a.len());
    assert(pair_views(b).len() == b.len());
    if a.len() > 0 {
        assert forall|j: int| 0 <= j < a.len() - 1 implies pair_views(a.drop_last())[j] == pair_views(b.drop_last())[j] by {
            assert(pair_views(a)[j] == pair_views(b)[j]);
        }
        assert(pair_views(a.drop_last()) =~= pair_views(b.drop_last()));
        lemma_same_pairs_same_map(a.drop_last(), b.drop_last());
        assert(pair_views(a)[a.len() - 1] == pair_views(b)[b.len() - 1]);
    }
}

} // verus!
