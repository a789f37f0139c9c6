//! `hit last view`: inspection of the last response, the paths offered in
//! copy mode and the value copied for a path.

use vstd::prelude::*;
use crate::cli::run::concat;
use crate::json::{compact_json, numbers_valid, ordered_deep, serde_from_json, JsonValue, JsonView};
use crate::text::{replace, replace_all, sorted_strictly, split_char, string_views};
use crate::utils::http::{decimal_text, response_value, Response};

verus! {

/// The JSON pointer for a dotted path: `a.b.0` becomes `/a/b/0`.
pub open spec fn pointer_for(path: Seq<char>) -> Seq<char> {
    seq!['/'] + replace_all(path, "."@, "/"@)
}

/// The JSON pointer for a dotted path (see `pointer_for`).
pub fn json_pointer_for_path(path: &str) -> (r: String)
    ensures
        r@ == pointer_for(path@),
{
    proof {
        reveal_strlit(".");
        reveal_strlit("/");
    }
    let replaced = replace(path, ".", "/");
    let r = concat("/", replaced.as_str());
    assert(r@ =~= pointer_for(path@));
    r
}

/// The key of the member `name` of an object found at `key`, `depth` levels
/// down: at the top, the name itself; below, `key.name`.
pub open spec fn member_key(key: Seq<char>, depth: nat, name: Seq<char>) -> Seq<char> {
    if depth == 0 {
        name
    } else {
        key + "."@ + name
    }
}

/// The flattened keys of the leaves of a value found at `key`, `depth`
/// levels down, in document order: a value that is neither an object nor an
/// array is a leaf; an empty object or array has none.
pub open spec fn leaf_paths(v: JsonView, key: Seq<char>, depth: nat) -> Seq<Seq<char>>
    decreases v, 1nat,
{
    match v {
        JsonView::Object(es) => entry_leaf_paths(es, key, depth),
        JsonView::Array(items) => item_leaf_paths(items, key, depth),
        _ => seq![key],
    }
}

/// The flattened keys of the leaves under the members of an object.
pub open spec fn entry_leaf_paths(es: Seq<(Seq<char>, JsonView)>, key: Seq<char>, depth: nat) -> Seq<Seq<char>>
    decreases es, 0nat,
{
    if es.len() == 0 {
        Seq::empty()
    } else {
        entry_leaf_paths(es.drop_last(), key, depth) + leaf_paths(es.last().1, member_key(key, depth, es.last().0), depth + 1)
    }
}

/// The flattened keys of the leaves under the elements of an array: the
/// element at position `i` is found at `key.i`.
pub open spec fn item_leaf_paths(items: Seq<JsonView>, key: Seq<char>, depth: nat) -> Seq<Seq<char>>
    decreases items, 0nat,
{
    if items.len() == 0 {
        Seq::empty()
    } else {
        item_leaf_paths(items.drop_last(), key, depth) + leaf_paths(
            items.last(),
            key + "."@ + decimal_text((items.len() - 1) as nat),
            depth + 1,
        )
    }
}

/// The flattened keys of a value flattened from the top.
pub open spec fn flattened_paths(v: JsonView) -> Seq<Seq<char>> {
    leaf_paths(v, Seq::empty(), 0)
}

/// The keys of `v` flattened by `flatten_json_object` (default settings:
/// `.` between keys, array positions as keys, empty objects and arrays
/// dropped), in the order of the `serde_json` object it returns. The
/// contract claims what the crate's source shows: the flattening fails when
/// `v` is not an object or when two leaves get the same key; otherwise the
/// keys are those of the leaves, each once, in increasing order. Each number
/// of `v` must be the text of a JSON number, so that it stays a number, and
/// thus a leaf, in the `serde_json` value.
#[verifier::external_body]
fn flattened_keys(v: &JsonValue) -> (r: Option<Vec<String>>)
    requires
        ordered_deep(v@),
        numbers_valid(v@),
    ensures
        r is Some <==> (v@ is Object && flattened_paths(v@).no_duplicates()),
        r matches Some(ks) ==> sorted_strictly(string_views(ks@))
            && forall|k: Seq<char>| #![auto] string_views(ks@).contains(k) <==> flattened_paths(v@).contains(k),
{
    let flat = flatten_json_object::Flattener::new().flatten(&serde_from_json(v)).ok()?;
    flat.as_object().map(|o| o.keys().cloned().collect())
}

/// The JSON paths offered in copy mode for the last response: the flattened
/// keys of its inspected value (see `response_value`), in increasing order;
/// `None` when two leaves of the response get the same key.
pub fn copy_mode_paths(prev_request: &Response) -> (r: Option<Vec<String>>)
    ensures
        r is Some <==> flattened_paths(response_value(*prev_request)).no_duplicates(),
        r matches Some(ks) ==> sorted_strictly(string_views(ks@))
            && forall|k: Seq<char>| #![auto] string_views(ks@).contains(k)
                <==> flattened_paths(response_value(*prev_request)).contains(k),
{
    let v = prev_request.inspect_value();
    flattened_keys(&v)
}

/// The reference tokens of a JSON pointer: the pieces after each `/`, with
/// `~1` read as `/` and then `~0` as `~`.
pub open spec fn pointer_tokens(pointer: Seq<char>) -> Seq<Seq<char>> {
    split_char(pointer, '/').drop_first().map_values(|t: Seq<char>| replace_all(replace_all(t, "~1"@, "/"@), "~0"@, "~"@))
}

/// The value of a decimal digit character.
pub open spec fn digit_value(c: char) -> nat {
    (c as nat - '0' as nat) as nat
}

/// Whether the text is made of decimal digits only.
pub open spec fn all_digits(t: Seq<char>) -> bool {
    forall|i: int| 0 <= i < t.len() ==> '0' <= #[trigger] t[i] <= '9'
}

/// The number that a text of decimal digits denotes.
pub open spec fn digits_value(t: Seq<char>) -> nat
    decreases t.len(),
{
    if t.len() == 0 {
        0
    } else {
        digits_value(t.drop_last()) * 10 + digit_value(t.last())
    }
}

/// The array position that a token names: a non-empty text of decimal
/// digits without a leading zero (`0` itself aside).
pub open spec fn index_token(t: Seq<char>) -> Option<nat> {
    if t.len() > 0 && all_digits(t) && !(t[0] == '0' && t.len() != 1) {
        Some(digits_value(t))
    } else {
        None
    }
}

/// The value of the first member named `k`.
pub open spec fn member_value(es: Seq<(Seq<char>, JsonView)>, k: Seq<char>) -> Option<JsonView>
    decreases es.len(),
{
    if es.len() == 0 {
        None
    } else if es[0].0 == k {
        Some(es[0].1)
    } else {
        member_value(es.drop_first(), k)
    }
}

/// The value reached from `v` by the tokens: each token names a member of an
/// object or a position in an array (as `serde_json::Value::pointer` walks).
pub open spec fn value_at(v: JsonView, tokens: Seq<Seq<char>>) -> Option<JsonView>
    decreases tokens.len(),
{
    if tokens.len() == 0 {
        Some(v)
    } else {
        match v {
            JsonView::Object(es) => match member_value(es, tokens[0]) {
                Some(c) => value_at(c, tokens.drop_first()),
                None => None,
            },
            JsonView::Array(items) => match index_token(tokens[0]) {
                Some(n) => if n < items.len() {
                    value_at(items[n as int], tokens.drop_first())
                } else {
                    None
                },
                None => None,
            },
            _ => None,
        }
    }
}

/// The value that a JSON pointer designates in `v`: `v` itself for the empty
/// pointer; nothing for a pointer that does not start with `/`.
pub open spec fn pointer_target(v: JsonView, pointer: Seq<char>) -> Option<JsonView> {
    if pointer.len() == 0 {
        Some(v)
    } else if pointer[0] != '/' {
        None
    } else {
        value_at(v, pointer_tokens(pointer))
    }
}

/// The compact JSON text of the value that a JSON pointer designates in `v`,
/// by `serde_json::Value::pointer` on the `serde_json` value of `v` and the
/// value's `to_string`. The contract claims what serde_json's source shows:
/// the pointer designates the value described by `pointer_target` (member
/// names in `v` are distinct, as its keys are in order, and each number is the
/// text of a JSON number, so the `serde_json` value has the same shape), and
/// the text is the one named `compact_json` for that value.
#[verifier::external_body]
fn pointer_text(v: &JsonValue, pointer: &str) -> (r: Option<String>)
    requires
        ordered_deep(v@),
        numbers_valid(v@),
    ensures
        match pointer_target(v@, pointer@) {
            Some(t) => r matches Some(x) && x@ == compact_json(t),
            None => r is None,
        },
{
    serde_from_json(v).pointer(pointer).map(|x| x.to_string())
}

/// The text copied for a path in copy mode: the compact JSON text of the
/// value that the path's pointer (see `pointer_for`) designates in the
/// inspected response; `None` when the path designates nothing.
pub fn copied_text(prev_request: &Response, path: &str) -> (r: Option<String>)
    ensures
        match pointer_target(response_value(*prev_request), pointer_for(path@)) {
            Some(t) => r matches Some(x) && x@ == compact_json(t),
            None => r is None,
        },
{
    let v = prev_request.inspect_value();
    let pointer = json_pointer_for_path(path);
    pointer_text(&v, pointer.as_str())
}

} // verus!
