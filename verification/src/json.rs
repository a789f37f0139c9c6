//! A model of JSON values; their text is read and written by `serde_json`.

use vstd::prelude::*;
use crate::number::is_json_number_text;
use crate::text::{lex_lt, lemma_lex_irreflexive, lemma_lex_total, lemma_lex_transitive, str_less};

verus! {

/// A JSON value. Numbers keep their text; object entries are kept in the
/// order of their keys.
pub enum JsonValue {
    Null,
    Bool(bool),
    Number(String),
    Str(String),
    Array(Vec<JsonValue>),
    Object(Vec<(String, JsonValue)>),
}

/// The mathematical model of a JSON value.
pub enum JsonView {
    Null,
    Bool(bool),
    Number(Seq<char>),
    Str(Seq<char>),
    Array(Seq<JsonView>),
    Object(Seq<(Seq<char>, JsonView)>),
}

/// The models of a sequence of values.
pub open spec fn view_items(s: Seq<JsonValue>) -> Seq<JsonView>
    decreases s, 0nat,
{
    if s.len() == 0 {
        Seq::empty()
    } else {
        seq![view_value(s[0])] + view_items(s.drop_first())
    }
}

/// The models of a sequence of object entries.
pub open spec fn view_entries(s: Seq<(String, JsonValue)>) -> Seq<(Seq<char>, JsonView)>
    decreases s, 0nat,
{
    if s.len() == 0 {
        Seq::empty()
    } else {
        seq![(s[0].0@, view_value(s[0].1))] + view_entries(s.drop_first())
    }
}

/// The model of a value.
pub open spec fn view_value(v: JsonValue) -> JsonView
    decreases v, 1nat,
{
    match v {
        JsonValue::Null => JsonView::Null,
        JsonValue::Bool(b) => JsonView::Bool(b),
        JsonValue::Number(n) => JsonView::Number(n@),
        JsonValue::Str(s) => JsonView::Str(s@),
        JsonValue::Array(items) => JsonView::Array(view_items(items@)),
        JsonValue::Object(entries) => JsonView::Object(view_entries(entries@)),
    }
}

impl View for JsonValue {
    type V = JsonView;

    open spec fn view(&self) -> JsonView {
        view_value(*self)
    }
}

/// The models of a sequence of values correspond one for one.
pub proof fn lemma_view_items(s: Seq<JsonValue>)
    ensures
        view_items(s).len() == s.len(),
        forall|i: int| 0 <= i < s.len() ==> #[trigger] view_items(s)[i] == view_value(s[i]),
    decreases s.len(),
{
    if s.len() > 0 {
        lemma_view_items(s.drop_first());
        assert forall|i: int| 0 <= i < s.len() implies #[trigger] view_items(s)[i] == view_value(s[i]) by {
            if i > 0 {
                assert(view_items(s)[i] == view_items(s.drop_first())[i - 1]);
            }
        }
    }
}

/// The models of a sequence of entries correspond one for one.
pub proof fn lemma_view_entries(s: Seq<(String, JsonValue)>)
    ensures
        view_entries(s).len() == s.len(),
        forall|i: int| 0 <= i < s.len() ==> #[trigger] view_entries(s)[i] == (s[i].0@, view_value(s[i].1)),
    decreases s.len(),
{
    if s.len() > 0 {
        lemma_view_entries(s.drop_first());
        assert forall|i: int| 0 <= i < s.len() implies #[trigger] view_entries(s)[i] == (s[i].0@, view_value(s[i].1)) by {
            if i > 0 {
                assert(view_entries(s)[i] == view_entries(s.drop_first())[i - 1]);
            }
        }
    }
}

/// Inserting an entry into an object whose entries are kept in the order of
/// their keys: an entry with the same key takes the new value, otherwise the
/// entry goes before the first greater key.
pub open spec fn obj_insert(es: Seq<(Seq<char>, JsonView)>, k: Seq<char>, v: JsonView) -> Seq<(Seq<char>, JsonView)>
    decreases es.len(),
{
    if es.len() == 0 {
        seq![(k, v)]
    } else if es[0].0 == k {
        seq![(k, v)] + es.drop_first()
    } else if lex_lt(k, es[0].0) {
        seq![(k, v)] + es
    } else {
        seq![es[0]] + obj_insert(es.drop_first(), k, v)
    }
}

/// Whether the keys of the entries come in strictly increasing order.
pub open spec fn keys_ordered(es: Seq<(Seq<char>, JsonView)>) -> bool {
    forall|i: int, j: int| 0 <= i < j < es.len() ==> lex_lt(#[trigger] es[i].0, #[trigger] es[j].0)
}

/// Whether every object inside the values has its keys in strictly
/// increasing order.
pub open spec fn ordered_items(s: Seq<JsonView>) -> bool
    decreases s, 0nat,
{
    s.len() == 0 || (ordered_items(s.drop_last()) && ordered_deep(s.last()))
}

/// Whether every object inside the entries' values has its keys in strictly
/// increasing order.
pub open spec fn ordered_entries(s: Seq<(Seq<char>, JsonView)>) -> bool
    decreases s, 0nat,
{
    s.len() == 0 || (ordered_entries(s.drop_last()) && ordered_deep(s.last().1))
}

/// Whether every object in the value, the value itself included, has its
/// keys in strictly increasing order (as a `serde_json` object keeps them).
pub open spec fn ordered_deep(v: JsonView) -> bool
    decreases v, 1nat,
{
    match v {
        JsonView::Array(items) => ordered_items(items),
        JsonView::Object(es) => keys_ordered(es) && ordered_entries(es),
        _ => true,
    }
}

/// Whether every number inside the values has the text of a JSON number.
pub open spec fn numbers_valid_items(s: Seq<JsonView>) -> bool
    decreases s, 0nat,
{
    s.len() == 0 || (numbers_valid_items(s.drop_last()) && numbers_valid(s.last()))
}

/// Whether every number inside the entries' values has the text of a JSON
/// number.
pub open spec fn numbers_valid_entries(s: Seq<(Seq<char>, JsonView)>) -> bool
    decreases s, 0nat,
{
    s.len() == 0 || (numbers_valid_entries(s.drop_last()) && numbers_valid(s.last().1))
}

/// Whether every number in the value has the text of a JSON number (as
/// `serde_json` writes a number).
pub open spec fn numbers_valid(v: JsonView) -> bool
    decreases v, 1nat,
{
    match v {
        JsonView::Number(t) => is_json_number_text(t),
        JsonView::Array(items) => numbers_valid_items(items),
        JsonView::Object(es) => numbers_valid_entries(es),
        _ => true,
    }
}

/// Entries whose values each have valid numbers throughout have valid
/// numbers throughout.
pub proof fn lemma_numbers_valid_entries_all(s: Seq<(Seq<char>, JsonView)>)
    requires
        forall|i: int| 0 <= i < s.len() ==> numbers_valid(#[trigger] s[i].1),
    ensures
        numbers_valid_entries(s),
    decreases s.len(),
{
    if s.len() > 0 {
        assert forall|i: int| 0 <= i < s.drop_last().len() implies numbers_valid(#[trigger] s.drop_last()[i].1) by {
            assert(s.drop_last()[i] == s[i]);
        }
        lemma_numbers_valid_entries_all(s.drop_last());
        assert(numbers_valid(s[s.len() - 1].1));
    }
}

/// Entries whose values are each ordered throughout are ordered throughout.
pub proof fn lemma_ordered_entries_all(s: Seq<(Seq<char>, JsonView)>)
    requires
        forall|i: int| 0 <= i < s.len() ==> ordered_deep(#[trigger] s[i].1),
    ensures
        ordered_entries(s),
    decreases s.len(),
{
    if s.len() > 0 {
        assert forall|i: int| 0 <= i < s.drop_last().len() implies ordered_deep(#[trigger] s.drop_last()[i].1) by {
            assert(s.drop_last()[i] == s[i]);
        }
        lemma_ordered_entries_all(s.drop_last());
        assert(ordered_deep(s[s.len() - 1].1));
    }
}

/// Inserting into an object whose keys are in order keeps them in order;
/// the object then holds the new entry, keeps every entry with another key,
/// and holds nothing else.
pub proof fn law_object_insert_keeps_keys_ordered(es: Seq<(Seq<char>, JsonView)>, k: Seq<char>, v: JsonView)
    requires
        keys_ordered(es),
    ensures
        keys_ordered(obj_insert(es, k, v)),
        obj_insert(es, k, v).contains((k, v)),
        forall|e: (Seq<char>, JsonView)| es.contains(e) && e.0 != k ==> #[trigger] obj_insert(es, k, v).contains(e),
        forall|e: (Seq<char>, JsonView)| #[trigger] obj_insert(es, k, v).contains(e) ==> e == (k, v) || (es.contains(e) && e.0 != k),
    decreases es.len(),
{
    let r = obj_insert(es, k, v);
    lemma_lex_irreflexive(k);
    if es.len() == 0 {
        assert(r[0] == (k, v));
        assert forall|e: (Seq<char>, JsonView)| #[trigger] r.contains(e) implies e == (k, v) || (es.contains(e) && e.0 != k) by {
            let i = choose|i: int| 0 <= i < r.len() && r[i] == e;
        }
    } else if es[0].0 == k {
        assert(r == seq![(k, v)] + es.drop_first());
        assert(r[0] == (k, v));
        assert forall|i: int, j: int| 0 <= i < j < r.len() implies lex_lt(#[trigger] r[i].0, #[trigger] r[j].0) by {
            assert(r[j] == es[j]);
            if i > 0 {
                assert(r[i] == es[i]);
            }
        }
        assert forall|e: (Seq<char>, JsonView)| es.contains(e) && e.0 != k implies #[trigger] r.contains(e) by {
            let i = choose|i: int| 0 <= i < es.len() && es[i] == e;
            assert(r[i] == e);
        }
        assert forall|e: (Seq<char>, JsonView)| #[trigger] r.contains(e) implies e == (k, v) || (es.contains(e) && e.0 != k) by {
            let i = choose|i: int| 0 <= i < r.len() && r[i] == e;
            if i > 0 {
                assert(es[i] == e);
                assert(lex_lt(es[0].0, es[i].0));
            }
        }
    } else if lex_lt(k, es[0].0) {
        assert(r == seq![(k, v)] + es);
        assert(r[0] == (k, v));
        assert forall|i: int, j: int| 0 <= i < j < r.len() implies lex_lt(#[trigger] r[i].0, #[trigger] r[j].0) by {
            assert(r[j] == es[j - 1]);
            if i > 0 {
                assert(r[i] == es[i - 1]);
            } else if j > 1 {
                assert(lex_lt(es[0].0, es[j - 1].0));
                lemma_lex_transitive(k, es[0].0, es[j - 1].0);
            }
        }
        assert forall|e: (Seq<char>, JsonView)| es.contains(e) && e.0 != k implies #[trigger] r.contains(e) by {
            let i = choose|i: int| 0 <= i < es.len() && es[i] == e;
            assert(r[i + 1] == e);
        }
        assert forall|e: (Seq<char>, JsonView)| #[trigger] r.contains(e) implies e == (k, v) || (es.contains(e) && e.0 != k) by {
            let i = choose|i: int| 0 <= i < r.len() && r[i] == e;
            if i > 0 {
                assert(es[i - 1] == e);
                if i > 1 {
                    assert(lex_lt(es[0].0, es[i - 1].0));
                    lemma_lex_transitive(k, es[0].0, es[i - 1].0);
                }
            }
        }
    } else {
        lemma_lex_total(k, es[0].0);
        assert(lex_lt(es[0].0, k));
        let t = es.drop_first();
        assert(keys_ordered(t)) by {
            assert forall|i: int, j: int| 0 <= i < j < t.len() implies lex_lt(#[trigger] t[i].0, #[trigger] t[j].0) by {
                assert(t[i] == es[i + 1] && t[j] == es[j + 1]);
            }
        }
        law_object_insert_keeps_keys_ordered(t, k, v);
        let rt = obj_insert(t, k, v);
        assert(r == seq![es[0]] + rt);
        assert forall|i: int, j: int| 0 <= i < j < r.len() implies lex_lt(#[trigger] r[i].0, #[trigger] r[j].0) by {
            assert(r[j] == rt[j - 1]);
            if i > 0 {
                assert(r[i] == rt[i - 1]);
            } else {
                assert(rt.contains(rt[j - 1]));
                if rt[j - 1] != (k, v) {
                    let m = choose|m: int| 0 <= m < t.len() && t[m] == rt[j - 1];
                    assert(es[m + 1] == t[m]);
                    assert(lex_lt(es[0].0, es[m + 1].0));
                }
            }
        }
        let w = choose|m: int| 0 <= m < rt.len() && rt[m] == (k, v);
        assert(r[w + 1] == (k, v));
        assert forall|e: (Seq<char>, JsonView)| es.contains(e) && e.0 != k implies #[trigger] r.contains(e) by {
            let i = choose|i: int| 0 <= i < es.len() && es[i] == e;
            if i == 0 {
                assert(r[0] == e);
            } else {
                assert(t[i - 1] == e);
                assert(t.contains(e));
                assert(rt.contains(e));
                let m = choose|m: int| 0 <= m < rt.len() && rt[m] == e;
                assert(r[m + 1] == e);
            }
        }
        assert forall|e: (Seq<char>, JsonView)| #[trigger] r.contains(e) implies e == (k, v) || (es.contains(e) && e.0 != k) by {
            let i = choose|i: int| 0 <= i < r.len() && r[i] == e;
            if i == 0 {
                assert(es[0] == e);
            } else {
                assert(rt[i - 1] == e);
                assert(rt.contains(e));
                if e != (k, v) {
                    let m = choose|m: int| 0 <= m < t.len() && t[m] == e;
                    assert(es[m + 1] == e);
                }
            }
        }
    }
}

/// `obj_insert` places the entry at the first key that is not smaller.
proof fn lemma_obj_insert_at(es: Seq<(Seq<char>, JsonView)>, k: Seq<char>, v: JsonView, p: int)
    requires
        0 <= p <= es.len(),
        forall|j: int| 0 <= j < p ==> lex_lt(#[trigger] es[j].0, k),
        p < es.len() ==> !lex_lt(es[p].0, k),
    ensures
        obj_insert(es, k, v) == if p < es.len() && es[p].0 == k {
            es.take(p) + seq![(k, v)] + es.skip(p + 1)
        } else {
            es.take(p) + seq![(k, v)] + es.skip(p)
        },
    decreases p,
{
    if p == 0 {
        if es.len() > 0 && es[0].0 != k {
            lemma_lex_total(es[0].0, k);
        }
        assert(es.skip(0) =~= es);
        assert(es.take(0) =~= Seq::<(Seq<char>, JsonView)>::empty());
        if es.len() > 0 {
            assert(es.skip(1) =~= es.drop_first());
        }
    } else {
        lemma_lex_irreflexive(k);
        assert(es[0].0 != k);
        assert(lex_lt(es[0].0, k));
        if lex_lt(k, es[0].0) {
            crate::text::lemma_lex_transitive(k, es[0].0, k);
        }
        lemma_obj_insert_at(es.drop_first(), k, v, p - 1);
        assert(es.take(p) =~= seq![es[0]] + es.drop_first().take(p - 1));
        if p < es.len() {
            assert(es.drop_first().skip(p) =~= es.skip(p + 1));
        }
        assert(es.drop_first().skip(p - 1) =~= es.skip(p));
    }
}

/// Inserts `k: v` into the object `entries` (see `obj_insert`).
pub fn object_insert(entries: &mut Vec<(String, JsonValue)>, k: String, v: JsonValue)
    ensures
        view_entries(final(entries)@) == obj_insert(view_entries(old(entries)@), k@, v@),
{
    let ghost es = view_entries(entries@);
    proof {
        lemma_view_entries(entries@);
    }
    let mut p: usize = 0;
    while p < entries.len() && str_less(entries[p].0.as_str(), k.as_str())
        invariant
            p <= entries@.len(),
            es == view_entries(entries@),
            es.len() == entries@.len(),
            forall|j: int| 0 <= j < entries@.len() ==> #[trigger] es[j] == (entries@[j].0@, view_value(entries@[j].1)),
            forall|j: int| 0 <= j < p ==> lex_lt(#[trigger] es[j].0, k@),
        decreases entries.len() - p,
    {
        p = p + 1;
    }
    proof {
        lemma_obj_insert_at(es, k@, v@, p as int);
    }
    let ghost kv = k@;
    let ghost vv = v@;
    if p < entries.len() && entries[p].0.eq(&k) {
        entries.set(p, (k, v));
    } else {
        entries.insert(p, (k, v));
    }
    proof {
        lemma_view_entries(entries@);
        let after = view_entries(entries@);
        if p < es.len() && es[p as int].0 == kv {
            assert(after =~= es.take(p as int) + seq![(kv, vv)] + es.skip(p + 1));
        } else {
            assert(after =~= es.take(p as int) + seq![(kv, vv)] + es.skip(p as int));
        }
    }
}

/// Converts a `JsonValue` into a `serde_json::Value`, variant for variant;
/// a number is read back from its text.
#[verifier::external_body]
pub(crate) fn serde_from_json(v: &JsonValue) -> serde_json::Value {
    match v {
        JsonValue::Null => serde_json::Value::Null,
        JsonValue::Bool(b) => serde_json::Value::Bool(*b),
        JsonValue::Number(n) => serde_json::from_str(n).unwrap_or(serde_json::Value::Null),
        JsonValue::Str(s) => serde_json::Value::String(s.clone()),
        JsonValue::Array(a) => serde_json::Value::Array(a.iter().map(serde_from_json).collect()),
        JsonValue::Object(es) => serde_json::Value::Object(es.iter().map(|(k, x)| (k.clone(), serde_from_json(x))).collect()),
    }
}

/// What `serde_json::to_string` writes for the `serde_json` value of a JSON
/// value (see `serde_from_json`): its compact text.
pub uninterp spec fn compact_json(v: JsonView) -> Seq<char>;

/// What `serde_json::to_string_pretty` writes for the `serde_json` value of
/// a JSON value: its text indented by two spaces per level.
pub uninterp spec fn pretty_json(v: JsonView) -> Seq<char>;

/// The compact JSON text of `v`, by `serde_json::to_string` (which cannot
/// fail on a `serde_json::Value`). The contract claims only that the result
/// is the one named `compact_json`.
#[verifier::external_body]
pub(crate) fn to_compact_string(v: &JsonValue) -> (s: String)
    ensures
        s@ == compact_json(v@),
{
    serde_json::to_string(&serde_from_json(v)).unwrap()
}

/// The pretty JSON text of `v`, by `serde_json::to_string_pretty` (which
/// cannot fail on a `serde_json::Value`). The contract claims only that the
/// result is the one named `pretty_json`.
#[verifier::external_body]
pub(crate) fn to_pretty_string(v: &JsonValue) -> (s: String)
    ensures
        s@ == pretty_json(v@),
{
    serde_json::to_string_pretty(&serde_from_json(v)).unwrap()
}

/// The JSON value type of `serde_json`.
#[verifier::external_type_specification]
#[verifier::external_body]
pub struct ExSerdeJsonValue(serde_json::Value);

/// What `serde_json::from_str::<serde_json::Value>` makes of a text: the
/// value it denotes (object entries in the order of their keys), or `None`
/// when the text is not JSON.
pub uninterp spec fn parsed_json(text: Seq<char>) -> Option<JsonView>;

/// Converts a `serde_json::Value` into a `JsonValue`, variant for variant;
/// a number keeps its `Display` text.
#[verifier::external_body]
fn json_from_serde(v: serde_json::Value) -> JsonValue {
    match v {
        serde_json::Value::Null => JsonValue::Null,
        serde_json::Value::Bool(b) => JsonValue::Bool(b),
        serde_json::Value::Number(n) => JsonValue::Number(n.to_string()),
        serde_json::Value::String(s) => JsonValue::Str(s),
        serde_json::Value::Array(a) => JsonValue::Array(a.into_iter().map(json_from_serde).collect()),
        serde_json::Value::Object(m) => JsonValue::Object(m.into_iter().map(|(k, x)| (k, json_from_serde(x))).collect()),
    }
}

/// Parses a JSON text with `serde_json::from_str::<serde_json::Value>`.
/// The contract claims that the result is the one that the name
/// `parsed_json` gives for the text, that each object in it has its keys in
/// strictly increasing order (a `serde_json` object, built without the
/// `preserve_order` feature, is a map ordered by key), and that each number
/// keeps the text that `serde_json::Number` displays, which is a JSON number;
/// what the value is, is not stated.
#[verifier::external_body]
pub(crate) fn parse_json(text: &str) -> (r: Option<JsonValue>)
    ensures
        r is None <==> parsed_json(text@) is None,
        r matches Some(v) ==> parsed_json(text@) == Some(v@) && ordered_deep(v@) && numbers_valid(v@),
{
    serde_json::from_str::<serde_json::Value>(text).ok().map(json_from_serde)
}

} // verus!
