//! A configured API call.

use vstd::prelude::*;
use crate::json::{JsonValue, JsonView, view_value, view_items, view_entries, lemma_view_items, lemma_view_entries};
use crate::table::Table;
use crate::text::{chars_of, find_char, index_of_char, slice_string};
use crate::utils::http::HttpMethod;

verus! {

/// A script run after a command, with the response at hand.
pub struct Postscript {
    /// The program that runs the script (`bash`, `python`, ...).
    pub command: String,
    /// The script's file name, under the postscripts directory.
    pub file: String,
}

/// A configured API call.
pub struct Command {
    pub method: HttpMethod,
    pub url: String,
    pub body: Option<JsonValue>,
    pub postscript: Option<Postscript>,
    pub headers: Table<String>,
}

/// The string values of a JSON value, in document order (object keys are
/// not values).
pub open spec fn strings_in(v: JsonView) -> Seq<Seq<char>>
    decreases v, 1nat,
{
    match v {
        JsonView::Str(s) => seq![s],
        JsonView::Array(items) => strings_in_items(items),
        JsonView::Object(entries) => strings_in_entries(entries),
        _ => Seq::empty(),
    }
}

/// The string values of a sequence of values.
pub open spec fn strings_in_items(s: Seq<JsonView>) -> Seq<Seq<char>>
    decreases s, 0nat,
{
    if s.len() == 0 {
        Seq::empty()
    } else {
        strings_in_items(s.drop_last()) + strings_in(s.last())
    }
}

/// The string values of the entries of an object.
pub open spec fn strings_in_entries(s: Seq<(Seq<char>, JsonView)>) -> Seq<Seq<char>>
    decreases s, 0nat,
{
    if s.len() == 0 {
        Seq::empty()
    } else {
        strings_in_entries(s.drop_last()) + strings_in(s.last().1)
    }
}

/// A parameter placeholder `:name` or `:name|type`, split into the name and
/// the type; `None` for a string that does not start with `:`.
pub open spec fn placeholder_parts(s: Seq<char>) -> Option<(Seq<char>, Option<Seq<char>>)> {
    if s.len() > 0 && s[0] == ':' {
        let rest = s.drop_first();
        let p = index_of_char(rest, '|');
        if p < rest.len() {
            Some((rest.take(p), Some(rest.skip(p + 1))))
        } else {
            Some((rest, None))
        }
    } else {
        None
    }
}

/// The parameters declared by a sequence of strings, with their types; a
/// later declaration of a name wins.
pub open spec fn declared_types(strs: Seq<Seq<char>>) -> Map<Seq<char>, Option<Seq<char>>>
    decreases strs.len(),
{
    if strs.len() == 0 {
        Map::empty()
    } else {
        let m = declared_types(strs.drop_last());
        match placeholder_parts(strs.last()) {
            Some((n, t)) => m.insert(n, t),
            None => m,
        }
    }
}

/// The model of an optional string.
pub open spec fn opt_view(o: Option<String>) -> Option<Seq<char>> {
    match o {
        Some(s) => Some(s@),
        None => None,
    }
}

/// The declared types of a table of optional type names, by their models.
pub open spec fn types_view(m: Map<Seq<char>, Option<String>>) -> Map<Seq<char>, Option<Seq<char>>> {
    m.map_values(|o: Option<String>| opt_view(o))
}

/// Appends the string values of `v` to `out`.
fn collect_strings(v: &JsonValue, out: &mut Vec<String>)
    ensures
        final(out)@.map_values(|s: String| s@) == old(out)@.map_values(|s: String| s@) + strings_in(v@),
    decreases v, 1nat,
{
    let ghost start = out@.map_values(|s: String| s@);
    match v {
        JsonValue::Str(s) => {
            out.push(s.clone());
            assert(out@.map_values(|s: String| s@) =~= start + strings_in(v@));
        },
        JsonValue::Array(items) => {
            assert(decreases_to!(*v => *items));
            collect_strings_items(items, out);
        },
        JsonValue::Object(entries) => {
            assert(decreases_to!(*v => *entries));
            collect_strings_entries(entries, out);
        },
        _ => {
            assert(out@.map_values(|s: String| s@) =~= start + strings_in(v@));
        },
    }
}

fn collect_strings_items(items: &Vec<JsonValue>, out: &mut Vec<String>)
    ensures
        final(out)@.map_values(|s: String| s@) == old(out)@.map_values(|s: String| s@) + strings_in_items(view_items(items@)),
    decreases items, 0nat,
{
    let ghost start = out@.map_values(|s: String| s@);
    proof {
        lemma_view_items(items@);
    }
    let ghost vs = view_items(items@);
    let mut i: usize = 0;
    while i < items.len()
        invariant
            i <= items@.len(),
            vs == view_items(items@),
            vs.len() == items@.len(),
            forall|j: int| 0 <= j < items@.len() ==> #[trigger] vs[j] == view_value(items@[j]),
            out@.map_values(|s: String| s@) == start + strings_in_items(vs.take(i as int)),
        decreases items.len() - i,
    {
        proof {
            assert(decreases_to!(*items => items@[i as int])) by {
                assert(decreases_to!(items@ => items@[i as int]));
                assert(decreases_to!(*items => items@));
            }
        }
        collect_strings(&items[i], out);
        assert(vs.take(i + 1).drop_last() =~= vs.take(i as int));
        assert(out@.map_values(|s: String| s@) =~= start + strings_in_items(vs.take(i + 1)));
        i = i + 1;
    }
    assert(vs.take(vs.len() as int) =~= vs);
}

fn collect_strings_entries(entries: &Vec<(String, JsonValue)>, out: &mut Vec<String>)
    ensures
        final(out)@.map_values(|s: String| s@) == old(out)@.map_values(|s: String| s@) + strings_in_entries(view_entries(entries@)),
    decreases entries, 0nat,
{
    let ghost start = out@.map_values(|s: String| s@);
    proof {
        lemma_view_entries(entries@);
    }
    let ghost es = view_entries(entries@);
    let mut i: usize = 0;
    while i < entries.len()
        invariant
            i <= entries@.len(),
            es == view_entries(entries@),
            es.len() == entries@.len(),
            forall|j: int| 0 <= j < entries@.len() ==> #[trigger] es[j] == (entries@[j].0@, view_value(entries@[j].1)),
            out@.map_values(|s: String| s@) == start + strings_in_entries(es.take(i as int)),
        decreases entries.len() - i,
    {
        proof {
            assert(decreases_to!(*entries => entries@[i as int].1)) by {
                assert(decreases_to!(entries@[i as int] => entries@[i as int].1));
                assert(decreases_to!(entries@ => entries@[i as int]));
                assert(decreases_to!(*entries => entries@));
            }
        }
        collect_strings(&entries[i].1, out);
        assert(es.take(i + 1).drop_last() =~= es.take(i as int));
        assert(out@.map_values(|s: String| s@) =~= start + strings_in_entries(es.take(i + 1)));
        i = i + 1;
    }
    assert(es.take(es.len() as int) =~= es);
}

/// Splits a placeholder `:name` or `:name|type`.
pub fn split_placeholder(s: &String) -> (r: Option<(String, Option<String>)>)
    ensures
        match placeholder_parts(s@) {
            Some((n, t)) => r matches Some(p) && p.0@ == n && opt_view(p.1) == t,
            None => r is None,
        },
{
    let cs = chars_of(s.as_str());
    if cs.len() == 0 || cs[0] != ':' {
        return None;
    }
    let p = find_char(cs.as_slice(), 1, '|');
    let ghost rest = s@.drop_first();
    assert(cs@.skip(1) =~= rest);
    let name = slice_string(cs.as_slice(), 1, p);
    assert(name@ =~= rest.take(p - 1));
    if p < cs.len() {
        let ty = slice_string(cs.as_slice(), p + 1, cs.len());
        assert(ty@ =~= rest.skip(p as int));
        Some((name, Some(ty)))
    } else {
        assert(name@ =~= rest);
        Some((name, None))
    }
}

impl Command {
    /// The parameters that the body declares, with their declared types: every
    /// string value of the body of the form `:name` or `:name|type` declares
    /// `name`, of type `type` in the second form; a later declaration wins.
    pub fn body_param_types(&self) -> (r: Table<Option<String>>)
        ensures
            r.wf(),
            match self.body {
                Some(b) => types_view(r@) == declared_types(strings_in(b@)),
                None => r@ == Map::<Seq<char>, Option<String>>::empty(),
            },
    {
        let mut r: Table<Option<String>> = Table::new();
        match &self.body {
            None => r,
            Some(b) => {
                let mut strs: Vec<String> = Vec::new();
                collect_strings(b, &mut strs);
                let ghost ss = strs@.map_values(|s: String| s@);
                assert(ss =~= strings_in(b@));
                let mut i: usize = 0;
                while i < strs.len()
                    invariant
                        i <= strs@.len(),
                        ss == strs@.map_values(|s: String| s@),
                        r.wf(),
                        forall|k: Seq<char>| #![auto] r@.contains_key(k) <==> declared_types(ss.take(i as int)).contains_key(k),
                        forall|k: Seq<char>| #![auto] r@.contains_key(k) ==> opt_view(r@[k]) == declared_types(ss.take(i as int))[k],
                    decreases strs.len() - i,
                {
                    assert(ss.take(i + 1).drop_last() =~= ss.take(i as int));
                    assert(ss.take(i + 1).last() == strs@[i as int]@);
                    match split_placeholder(&strs[i]) {
                        Some((n, t)) => {
                            r.insert(n, t);
                        },
                        None => {},
                    }
                    i = i + 1;
                }
                assert(ss.take(strs@.len() as int) =~= ss);
                assert(types_view(r@) =~= declared_types(ss));
                r
            },
        }
    }
}

} // verus!
