//! The `run` command: substitution of parameter values into the route, the
//! headers and the body of a configured API call.

use vstd::prelude::*;
use convert_case::{Case, Casing};
use crate::json::{compact_json, pretty_json, parse_json, parsed_json, lemma_view_entries, to_compact_string, view_entries, JsonValue, JsonView};
use crate::number::{is_json_number, is_json_number_text};
use crate::table::{pair_views, Table};
use crate::text::{contains_text, replace, replace_all};
use crate::cli::params::{fill_params, fill_placeholders};
use crate::utils::error::CliError;
use crate::domain::app_config::AppConfig;
use crate::domain::command::{declared_types, strings_in, types_view, Command};
use crate::json::to_pretty_string;
use crate::table::{entries_map, keys_of};
use crate::template::{env_var_pattern_matches, has_env_var_placeholder, render_template, rendered_template};
use crate::text::{lex_lt, str_less};

verus! {

/// Options of the `run` command.
pub struct RunOptions {
    /// Open the body in the system editor before sending it.
    pub edit_body: bool,
    /// Read the body from this file instead of the config.
    pub body_file: Option<String>,
    /// Print the whole response as one JSON object.
    pub json_output: bool,
}

/// The body after typed substitution, and the body fields that name files
/// to upload (field name, file path), in the order they were found.
pub struct TypedSubstitutionResult {
    pub body: String,
    pub file_fields: Vec<(String, String)>,
}

/// The models of a sequence of strings.
pub open spec fn string_views(s: Seq<String>) -> Seq<Seq<char>> {
    s.map_values(|e: String| e@)
}

/// The placeholder of a parameter in a route, a header or a body: `:name`.
pub open spec fn route_placeholder(name: Seq<char>) -> Seq<char> {
    seq![':'] + name
}

/// The quoted placeholder of a typed parameter: `":name|type"`, quotes included.
pub open spec fn quoted_placeholder(name: Seq<char>, ty: Seq<char>) -> Seq<char> {
    seq!['"', ':'] + name + seq!['|'] + ty + seq!['"']
}

/// The placeholder of a file parameter: `:name|file`.
pub open spec fn file_placeholder(name: Seq<char>) -> Seq<char> {
    seq![':'] + name + "|file"@
}

/// The declared type of a parameter, if it has one.
pub open spec fn param_type_of(types: Map<Seq<char>, Option<Seq<char>>>, name: Seq<char>) -> Option<Seq<char>> {
    if types.contains_key(name) {
        types[name]
    } else {
        None
    }
}

/// The message for a boolean parameter with another value.
pub open spec fn bool_error(name: Seq<char>, value: Seq<char>) -> Seq<char> {
    "Parameter '"@ + name + "' expects a boolean value (true/false), got '"@ + value + "'"@
}

/// The message for a number parameter with another value.
pub open spec fn number_error(name: Seq<char>, value: Seq<char>) -> Seq<char> {
    "Parameter '"@ + name + "' expects a number value, got '"@ + value + "'"@
}

/// The message for a file parameter whose file does not exist.
pub open spec fn file_error(name: Seq<char>, value: Seq<char>) -> Seq<char> {
    "File not found for parameter '"@ + name + "': "@ + value
}

/// The position of the first entry whose value is the string `target`, or
/// the number of entries when there is none.
pub open spec fn first_str_entry(es: Seq<(Seq<char>, JsonView)>, target: Seq<char>) -> int
    decreases es.len(),
{
    if es.len() == 0 {
        0
    } else if es[0].1 == JsonView::Str(target) {
        0
    } else {
        1 + first_str_entry(es.drop_first(), target)
    }
}

/// A file parameter: when the body is a JSON object with an entry whose
/// value is `:name|file`, the first such entry leaves the body (which is
/// then written compactly) and becomes a file field.
pub open spec fn file_step(
    body: Seq<char>,
    files: Seq<(Seq<char>, Seq<char>)>,
    name: Seq<char>,
    value: Seq<char>,
) -> (Seq<char>, Seq<(Seq<char>, Seq<char>)>) {
    match parsed_json(body) {
        Some(JsonView::Object(es)) => {
            let i = first_str_entry(es, file_placeholder(name));
            if i < es.len() {
                (compact_json(JsonView::Object(es.remove(i))), files.push((es[i].0, value)))
            } else {
                (body, files)
            }
        },
        _ => (body, files),
    }
}

/// Whether a declared type is one of those that the typed substitution
/// handles itself: `boolean`, `number` or `file`.
pub open spec fn is_special_type(ty: Option<Seq<char>>) -> bool {
    ty == Some("boolean"@) || ty == Some("number"@) || ty == Some("file"@)
}

/// The parameters without such a type, as a map from name to value (a later
/// entry of a name wins).
pub open spec fn plain_params(params: Seq<(Seq<char>, Seq<char>)>, types: Map<Seq<char>, Option<Seq<char>>>) -> Map<Seq<char>, Seq<char>>
    decreases params.len(),
{
    if params.len() == 0 {
        Map::empty()
    } else if is_special_type(param_type_of(types, params.last().0)) {
        plain_params(params.drop_last(), types)
    } else {
        plain_params(params.drop_last(), types).insert(params.last().0, params.last().1)
    }
}

/// One parameter of the typed substitution (a parameter without a special
/// type is filled in afterwards, see `typed_substitution`).
pub open spec fn typed_step(
    st: (Seq<char>, Seq<(Seq<char>, Seq<char>)>),
    name: Seq<char>,
    value: Seq<char>,
    ty: Option<Seq<char>>,
    existing: Seq<Seq<char>>,
) -> Result<(Seq<char>, Seq<(Seq<char>, Seq<char>)>), Seq<char>> {
    if ty == Some("boolean"@) {
        if value != "true"@ && value != "false"@ {
            Err(bool_error(name, value))
        } else {
            Ok((replace_all(st.0, quoted_placeholder(name, "boolean"@), value), st.1))
        }
    } else if ty == Some("number"@) {
        if !is_json_number_text(value) {
            Err(number_error(name, value))
        } else {
            Ok((replace_all(st.0, quoted_placeholder(name, "number"@), value), st.1))
        }
    } else if ty == Some("file"@) {
        if !existing.contains(value) {
            Err(file_error(name, value))
        } else {
            Ok(file_step(st.0, st.1, name, value))
        }
    } else {
        Ok(st)
    }
}

/// The typed parameters, in order; the first error stops it.
pub open spec fn substitute_typed(
    input: Seq<char>,
    params: Seq<(Seq<char>, Seq<char>)>,
    types: Map<Seq<char>, Option<Seq<char>>>,
    existing: Seq<Seq<char>>,
) -> Result<(Seq<char>, Seq<(Seq<char>, Seq<char>)>), Seq<char>>
    decreases params.len(),
{
    if params.len() == 0 {
        Ok((input, Seq::empty()))
    } else {
        match substitute_typed(input, params.drop_last(), types, existing) {
            Err(e) => Err(e),
            Ok(st) => typed_step(st, params.last().0, params.last().1, param_type_of(types, params.last().0), existing),
        }
    }
}

/// Whether a parameter's value is one its declared type accepts: `true` or
/// `false` for `boolean`, the text of a JSON number for `number`, an existing
/// file for `file`; any value for another or no type.
pub open spec fn value_accepted(types: Map<Seq<char>, Option<Seq<char>>>, existing: Seq<Seq<char>>, p: (Seq<char>, Seq<char>)) -> bool {
    let ty = param_type_of(types, p.0);
    &&& ty == Some("boolean"@) ==> (p.1 == "true"@ || p.1 == "false"@)
    &&& ty == Some("number"@) ==> is_json_number_text(p.1)
    &&& ty == Some("file"@) ==> existing.contains(p.1)
}

/// The message for a parameter whose value its type does not accept.
pub open spec fn rejection_message(types: Map<Seq<char>, Option<Seq<char>>>, p: (Seq<char>, Seq<char>)) -> Seq<char> {
    let ty = param_type_of(types, p.0);
    if ty == Some("boolean"@) {
        bool_error(p.0, p.1)
    } else if ty == Some("number"@) {
        number_error(p.0, p.1)
    } else {
        file_error(p.0, p.1)
    }
}

/// The typed parameters succeed exactly when every value is accepted by its
/// type; otherwise the error is that of the first value that is not.
proof fn lemma_substitute_typed_outcome(
    input: Seq<char>,
    params: Seq<(Seq<char>, Seq<char>)>,
    types: Map<Seq<char>, Option<Seq<char>>>,
    existing: Seq<Seq<char>>,
)
    ensures
        substitute_typed(input, params, types, existing) is Ok
            <==> forall|i: int| 0 <= i < params.len() ==> value_accepted(types, existing, #[trigger] params[i]),
        substitute_typed(input, params, types, existing) matches Err(m) ==> exists|i: int| {
            &&& 0 <= i < params.len()
            &&& forall|j: int| 0 <= j < i ==> value_accepted(types, existing, #[trigger] params[j])
            &&& !value_accepted(types, existing, #[trigger] params[i])
            &&& m == rejection_message(types, params[i])
        },
    decreases params.len(),
{
    reveal_strlit("boolean");
    reveal_strlit("number");
    reveal_strlit("file");
    assert("boolean"@ != "number"@ && "boolean"@ != "file"@ && "number"@ != "file"@) by {
        assert("boolean"@[0] != "number"@[0]);
        assert("boolean"@[0] != "file"@[0]);
        assert("number"@[0] != "file"@[0]);
    }
    if params.len() > 0 {
        let prev = params.drop_last();
        lemma_substitute_typed_outcome(input, prev, types, existing);
        let last = params.len() - 1;
        assert(params.last() == params[last]);
        assert forall|i: int| 0 <= i < prev.len() implies prev[i] == params[i] by {}
        if substitute_typed(input, prev, types, existing) is Ok {
            assert forall|i: int| 0 <= i < last implies value_accepted(types, existing, #[trigger] params[i]) by {
                assert(prev[i] == params[i]);
            }
        } else {
            let m = substitute_typed(input, prev, types, existing)->Err_0;
            let i = choose|i: int| {
                &&& 0 <= i < prev.len()
                &&& forall|j: int| 0 <= j < i ==> value_accepted(types, existing, #[trigger] prev[j])
                &&& !value_accepted(types, existing, #[trigger] prev[i])
                &&& m == rejection_message(types, prev[i])
            };
            assert(prev[i] == params[i]);
            assert forall|j: int| 0 <= j < i implies value_accepted(types, existing, #[trigger] params[j]) by {
                assert(prev[j] == params[j]);
            }
        }
    }
}

/// The typed substitution of a body succeeds exactly when each parameter's
/// value is accepted by its declared type (`true`/`false`, a JSON number, an
/// existing file), so a JSON number such as `100` is never refused; when it
/// fails, the message is the one for the first refused parameter.
pub proof fn law_typed_substitution_accepts(
    input: Seq<char>,
    params: Seq<(Seq<char>, Seq<char>)>,
    types: Map<Seq<char>, Option<Seq<char>>>,
    existing: Seq<Seq<char>>,
)
    ensures
        typed_substitution(input, params, types, existing) is Ok
            <==> forall|i: int| 0 <= i < params.len() ==> value_accepted(types, existing, #[trigger] params[i]),
        typed_substitution(input, params, types, existing) matches Err(m) ==> exists|i: int| {
            &&& 0 <= i < params.len()
            &&& forall|j: int| 0 <= j < i ==> value_accepted(types, existing, #[trigger] params[j])
            &&& !value_accepted(types, existing, #[trigger] params[i])
            &&& m == rejection_message(types, params[i])
        },
{
    lemma_substitute_typed_outcome(input, params, types, existing);
}

/// The typed substitution of a body: the typed parameters in order (see
/// `substitute_typed`), then each placeholder `:name` of another parameter
/// filled with its value (see `fill_placeholders`).
pub open spec fn typed_substitution(
    input: Seq<char>,
    params: Seq<(Seq<char>, Seq<char>)>,
    types: Map<Seq<char>, Option<Seq<char>>>,
    existing: Seq<Seq<char>>,
) -> Result<(Seq<char>, Seq<(Seq<char>, Seq<char>)>), Seq<char>> {
    match substitute_typed(input, params, types, existing) {
        Ok(st) => Ok((fill_placeholders(st.0, plain_params(params, types)), st.1)),
        Err(e) => Err(e),
    }
}

/// What `convert_case` makes of a text with `to_case(Case::Camel)`.
pub uninterp spec fn camel_case(s: Seq<char>) -> Seq<char>;

/// The camel-case form of `s` (`convert_case`, `Case::Camel`). The contract
/// claims only that the result is the one named `camel_case`.
#[verifier::external_body]
fn to_camel_case(s: &str) -> (r: String)
    ensures
        r@ == camel_case(s@),
{
    s.to_case(Case::Camel)
}

/// The parameter that a command-line option names: the option in camel
/// case, so that `--user-id` gives the value of `:userId`.
pub fn param_name_for_option(option: &str) -> (r: String)
    ensures
        r@ == camel_case(option@),
{
    to_camel_case(option)
}

/// The concatenation of two strings.
pub fn concat(a: &str, b: &str) -> (s: String)
    ensures
        s@ == a@ + b@,
{
    let mut s = String::from_str(a);
    s.append(b);
    s
}

fn route_placeholder_of(name: &String) -> (s: String)
    ensures
        s@ == route_placeholder(name@),
{
    let s = concat(":", name.as_str());
    proof {
        reveal_strlit(":");
    }
    assert(s@ =~= route_placeholder(name@));
    s
}

fn quoted_placeholder_of(name: &String, ty: &str) -> (s: String)
    ensures
        s@ == quoted_placeholder(name@, ty@),
{
    let a = concat("\":", name.as_str());
    let b = concat(a.as_str(), "|");
    let c = concat(b.as_str(), ty);
    let d = concat(c.as_str(), "\"");
    proof {
        reveal_strlit("\":");
        reveal_strlit("|");
        reveal_strlit("\"");
    }
    assert(d@ =~= quoted_placeholder(name@, ty@));
    d
}

/// Replaces each placeholder `:name` whose name is a parameter by that
/// parameter's value (see `fill_placeholders`): each placeholder gets its own
/// name's value, whatever the order of the table.
pub fn replace_params(input: String, params: &Table<String>) -> (out: String)
    ensures
        out@ == fill_placeholders(input@, params@),
{
    fill_params(input.as_str(), params)
}

/// Whether `list` holds a string equal to `v`.
pub fn contains_string(list: &Vec<String>, v: &String) -> (b: bool)
    ensures
        b == string_views(list@).contains(v@),
{
    let mut i: usize = 0;
    while i < list.len()
        invariant
            i <= list@.len(),
            forall|j: int| 0 <= j < i ==> list@[j]@ != v@,
        decreases list.len() - i,
    {
        if list[i].eq(v) {
            assert(string_views(list@)[i as int] == v@);
            return true;
        }
        i = i + 1;
    }
    assert forall|j: int| 0 <= j < string_views(list@).len() implies string_views(list@)[j] != v@ by {
        assert(string_views(list@)[j] == list@[j]@);
    }
    false
}

/// Whether `v` is the JSON string `t`.
fn is_str_value(v: &JsonValue, t: &String) -> (b: bool)
    ensures
        b == (v@ == JsonView::Str(t@)),
{
    match v {
        JsonValue::Str(s) => s.eq(t),
        _ => false,
    }
}

/// `first_str_entry` is the first position holding the target string.
proof fn lemma_first_str_entry(es: Seq<(Seq<char>, JsonView)>, target: Seq<char>, i: int)
    requires
        0 <= i <= es.len(),
        forall|j: int| 0 <= j < i ==> es[j].1 != JsonView::Str(target),
        i < es.len() ==> es[i].1 == JsonView::Str(target),
    ensures
        first_str_entry(es, target) == i,
    decreases i,
{
    if i > 0 {
        lemma_first_str_entry(es.drop_first(), target, i - 1);
    }
}

/// Handles a file parameter whose file exists (see `file_step`).
fn apply_file_param(body: String, files: &mut Vec<(String, String)>, name: &String, value: &String) -> (out: String)
    ensures
        (out@, pair_views(final(files)@)) == file_step(body@, pair_views(old(files)@), name@, value@),
{
    let ghost old_files = pair_views(files@);
    let p1 = route_placeholder_of(name);
    let placeholder = concat(p1.as_str(), "|file");
    assert(placeholder@ =~= file_placeholder(name@));
    let parsed = parse_json(body.as_str());
    match parsed {
        Some(JsonValue::Object(mut entries)) => {
            let ghost es = view_entries(entries@);
            proof {
                lemma_view_entries(entries@);
            }
            let mut i: usize = 0;
            while i < entries.len() && !is_str_value(&entries[i].1, &placeholder)
                invariant
                    i <= entries@.len(),
                    es == view_entries(entries@),
                    es.len() == entries@.len(),
                    forall|j: int| 0 <= j < entries@.len() ==> #[trigger] es[j] == (entries@[j].0@, crate::json::view_value(entries@[j].1)),
                    forall|j: int| 0 <= j < i ==> es[j].1 != JsonView::Str(placeholder@),
                decreases entries.len() - i,
            {
                i = i + 1;
            }
            proof {
                lemma_first_str_entry(es, placeholder@, i as int);
            }
            if i < entries.len() {
                let ghost key = es[i as int].0;
                let (k, _) = entries.remove(i);
                assert(k@ == key);
                files.push((k, value.clone()));
                proof {
                    lemma_view_entries(entries@);
                    assert(view_entries(entries@) =~= es.remove(i as int));
                    assert(pair_views(files@) =~= old_files.push((key, value@)));
                }
                to_compact_string(&JsonValue::Object(entries))
            } else {
                body
            }
        },
        _ => body,
    }
}

/// Once the typed substitution of a prefix fails, the whole one fails the same way.
proof fn lemma_typed_error_stays(
    input: Seq<char>,
    ps: Seq<(Seq<char>, Seq<char>)>,
    types: Map<Seq<char>, Option<Seq<char>>>,
    ex: Seq<Seq<char>>,
    k: int,
    e: Seq<char>,
)
    requires
        0 <= k <= ps.len(),
        substitute_typed(input, ps.take(k), types, ex) == Err::<(Seq<char>, Seq<(Seq<char>, Seq<char>)>), Seq<char>>(e),
    ensures
        substitute_typed(input, ps, types, ex) == Err::<(Seq<char>, Seq<(Seq<char>, Seq<char>)>), Seq<char>>(e),
    decreases ps.len() - k,
{
    if k < ps.len() {
        assert(ps.take(k + 1).drop_last() =~= ps.take(k));
        lemma_typed_error_stays(input, ps, types, ex, k + 1, e);
    } else {
        assert(ps.take(k) =~= ps);
    }
}

/// Typed substitution of the parameter values into a body:
/// - a `boolean` parameter must be `true` or `false` and replaces
///   `":name|boolean"` (quotes included);
/// - a `number` parameter must be the text of a JSON number and replaces
///   `":name|number"` (quotes included);
/// - a `file` parameter must name an existing file (one of `existing_files`)
///   and takes the entry `":name|file"` out of the body (see `file_step`);
/// - the typed parameters go in the order of the table, and the first that
///   breaks its rule ends the substitution with an error;
/// - then each placeholder `:name` of any other parameter gets its value.
pub fn replace_params_typed(
    input: String,
    params: &Table<String>,
    param_types: &Table<Option<String>>,
    existing_files: &Vec<String>,
) -> (r: Result<TypedSubstitutionResult, CliError>)
    ensures
        match typed_substitution(input@, pair_views(params.entries@), types_view(param_types@), string_views(existing_files@)) {
            Ok(st) => r matches Ok(t) && t.body@ == st.0 && pair_views(t.file_fields@) == st.1,
            Err(m) => r matches Err(e) && e.message@ == m,
        },
{
    let ghost ps = pair_views(params.entries@);
    let ghost ex = string_views(existing_files@);
    let mut result = input;
    let mut file_fields: Vec<(String, String)> = Vec::new();
    let mut plain: Table<String> = Table::new();
    let mut i: usize = 0;
    assert(pair_views(file_fields@) =~= Seq::<(Seq<char>, Seq<char>)>::empty());
    while i < params.entries.len()
        invariant
            i <= params.entries@.len(),
            ps == pair_views(params.entries@),
            ex == string_views(existing_files@),
            substitute_typed(input@, ps.take(i as int), types_view(param_types@), ex) == Ok::<_, Seq<char>>((result@, pair_views(file_fields@))),
            plain@ == plain_params(ps.take(i as int), types_view(param_types@)),
        decreases params.entries@.len() - i,
    {
        let name = &params.entries[i].0;
        let value = &params.entries[i].1;
        assert(ps.take(i + 1).drop_last() =~= ps.take(i as int));
        assert(ps.take(i + 1).last() == (name@, value@));
        let ghost ty = param_type_of(types_view(param_types@), name@);
        let t: Option<&String> = match param_types.get(name) {
            Some(Some(t)) => Some(t),
            _ => None,
        };
        assert(t matches Some(tt) ==> ty == Some(tt@));
        assert(t is None ==> ty is None);
        let is_bool = match t { Some(tt) => tt.eq(&String::from_str("boolean")), None => false };
        let is_number = match t { Some(tt) => tt.eq(&String::from_str("number")), None => false };
        let is_file = match t { Some(tt) => tt.eq(&String::from_str("file")), None => false };
        assert(is_bool == (ty == Some("boolean"@)));
        assert(is_number == (ty == Some("number"@)));
        assert(is_file == (ty == Some("file"@)));
        if is_bool {
            if !value.eq(&String::from_str("true")) && !value.eq(&String::from_str("false")) {
                let m1 = concat("Parameter '", name.as_str());
                let m2 = concat(m1.as_str(), "' expects a boolean value (true/false), got '");
                let m3 = concat(m2.as_str(), value.as_str());
                let m4 = concat(m3.as_str(), "'");
                assert(m4@ =~= bool_error(name@, value@));
                proof {
                    lemma_typed_error_stays(input@, ps, types_view(param_types@), ex, i + 1, m4@);
                }
                return Err(CliError::new(m4));
            }
            let ph = quoted_placeholder_of(name, "boolean");
            result = replace(result.as_str(), ph.as_str(), value.as_str());
        } else if is_number {
            if !is_json_number(value.as_str()) {
                let m1 = concat("Parameter '", name.as_str());
                let m2 = concat(m1.as_str(), "' expects a number value, got '");
                let m3 = concat(m2.as_str(), value.as_str());
                let m4 = concat(m3.as_str(), "'");
                assert(m4@ =~= number_error(name@, value@));
                proof {
                    lemma_typed_error_stays(input@, ps, types_view(param_types@), ex, i + 1, m4@);
                }
                return Err(CliError::new(m4));
            }
            let ph = quoted_placeholder_of(name, "number");
            result = replace(result.as_str(), ph.as_str(), value.as_str());
        } else if is_file {
            if !contains_string(existing_files, value) {
                let m1 = concat("File not found for parameter '", name.as_str());
                let m2 = concat(m1.as_str(), "': ");
                let m3 = concat(m2.as_str(), value.as_str());
                assert(m3@ =~= file_error(name@, value@));
                proof {
                    lemma_typed_error_stays(input@, ps, types_view(param_types@), ex, i + 1, m3@);
                }
                return Err(CliError::new(m3));
            }
            result = apply_file_param(result, &mut file_fields, name, value);
        } else {
            plain.insert(name.clone(), value.clone());
        }
        i = i + 1;
    }
    assert(ps.take(i as int) =~= ps);
    let body = fill_params(result.as_str(), &plain);
    Ok(TypedSubstitutionResult { body, file_fields })
}

/// The version from which the editor no longer opens on its own for
/// request bodies.
pub const BREAKING_CHANGE_VERSION: &'static str = "0.6.0";

/// Whether the notice about the change of version `BREAKING_CHANGE_VERSION`
/// is due: no version was seen yet, or the last one seen comes before it.
pub open spec fn upgrade_notice_due(last_seen: Option<String>) -> bool {
    match last_seen {
        Some(v) => lex_lt(v@, BREAKING_CHANGE_VERSION@),
        None => true,
    }
}

/// Decides whether the upgrade notice is due; when it is, `current_version`
/// becomes the last version seen (and the caller shows the notice and stops).
pub fn check_upgrade_notice(app_config: &mut AppConfig, current_version: String) -> (due: bool)
    ensures
        due == upgrade_notice_due(old(app_config).last_seen_version),
        due ==> *final(app_config) == (AppConfig { last_seen_version: Some(current_version), ..*old(app_config) }),
        !due ==> *final(app_config) == *old(app_config),
{
    let due = match &app_config.last_seen_version {
        Some(version) => str_less(version.as_str(), BREAKING_CHANGE_VERSION),
        None => true,
    };
    if due {
        app_config.last_seen_version = Some(current_version);
    }
    due
}

/// Once the notice has been shown, the version recorded is the current one,
/// so a re-run with a current version from `BREAKING_CHANGE_VERSION` on is
/// not stopped again.
pub proof fn law_upgrade_notice_shown_once(app: AppConfig, current_version: String)
    requires
        !lex_lt(current_version@, BREAKING_CHANGE_VERSION@),
    ensures
        upgrade_notice_due(app.last_seen_version) ==> !upgrade_notice_due(
            (AppConfig { last_seen_version: Some(current_version), ..app }).last_seen_version,
        ),
{
}

/// The variables of an environment merged with the ephemeral ones; an
/// ephemeral variable wins over an environment variable of the same name.
pub fn merge_vars(env_data: &Table<String>, ephenv_data: &Table<String>) -> (r: Table<String>)
    ensures
        r@ == env_data@.union_prefer_right(ephenv_data@),
{
    let mut r = env_data.copy();
    let mut i: usize = 0;
    while i < ephenv_data.entries.len()
        invariant
            i <= ephenv_data.entries@.len(),
            r@ == env_data@.union_prefer_right(entries_map(ephenv_data.entries@.take(i as int))),
        decreases ephenv_data.entries.len() - i,
    {
        let ghost before = entries_map(ephenv_data.entries@.take(i as int));
        let k = ephenv_data.entries[i].0.clone();
        let v = ephenv_data.entries[i].1.clone();
        r.insert(k, v);
        assert(ephenv_data.entries@.take(i + 1).drop_last() =~= ephenv_data.entries@.take(i as int));
        assert(entries_map(ephenv_data.entries@.take(i + 1)) == before.insert(ephenv_data.entries@[i as int].0@, ephenv_data.entries@[i as int].1@));
        assert(r@ =~= env_data@.union_prefer_right(entries_map(ephenv_data.entries@.take(i + 1))));
        i = i + 1;
    }
    assert(ephenv_data.entries@.take(i as int) =~= ephenv_data.entries@);
    r
}

/// The variables available to templates: those of the active environment,
/// with the ephemeral ones over them. Fails when no environment is active or
/// the config does not know it.
pub fn resolve_vars(
    envs: &Table<Table<String>>,
    current_env: Option<String>,
    ephenv_data: &Table<String>,
) -> (r: Result<Table<String>, CliError>)
    ensures
        match current_env {
            None => r matches Err(e) && e.message@ == "env not set"@,
            Some(name) => if envs@.contains_key(name@) {
                r matches Ok(t) && t@ == envs@[name@].union_prefer_right(ephenv_data@)
            } else {
                r matches Err(e) && e.message@ == "env not recognized"@
            },
        },
{
    match current_env {
        None => Err(CliError::new(String::from_str("env not set"))),
        Some(name) => match envs.get(&name) {
            None => Err(CliError::new(String::from_str("env not recognized"))),
            Some(env_data) => Ok(merge_vars(env_data, ephenv_data)),
        },
    }
}

/// How a step of `run` can fail: with an error for the user, or by aborting
/// (a template that cannot be rendered where one is expected to render).
pub enum RunFailure {
    Error(CliError),
    Abort(String),
}

/// A text with its environment variables rendered, when it has any.
pub open spec fn render_if_templated(text: Seq<char>, data: Map<Seq<char>, Seq<char>>) -> Result<Seq<char>, Seq<char>> {
    if has_env_var_placeholder(text) {
        rendered_template(text, data)
    } else {
        Ok(text)
    }
}

/// The URL to call: the command's URL with its environment variables
/// rendered (when it has any), then its route parameters replaced.
pub fn build_url(url: &String, data: &Table<String>, params: &Table<String>) -> (r: Result<String, RunFailure>)
    ensures
        match render_if_templated(url@, data@) {
            Ok(u) => r matches Ok(x) && x@ == fill_placeholders(u, params@),
            Err(m) => r matches Err(RunFailure::Abort(x)) && x@ == m,
        },
        !contains_text(url@, "{{"@) ==> (r matches Ok(x) && x@ == fill_placeholders(url@, params@)),
{
    let rendered = if env_var_pattern_matches(url.as_str()) {
        match render_template(url.as_str(), data) {
            Ok(u) => u,
            Err(m) => {
                return Err(RunFailure::Abort(m));
            },
        }
    } else {
        url.clone()
    };
    Ok(replace_params(rendered, params))
}

/// Whether the header value `v` is what the value `raw` becomes: its
/// environment variables rendered, then its parameters replaced.
pub open spec fn header_value_of(raw: Seq<char>, data: Map<Seq<char>, Seq<char>>, params: Map<Seq<char>, Seq<char>>, v: Seq<char>) -> bool {
    rendered_template(raw, data) matches Ok(t) && v == fill_placeholders(t, params)
}

/// The header values with their environment variables rendered and their
/// parameters (`:name`) replaced; aborts on the first value (in table order)
/// that cannot be rendered.
pub fn render_headers(headers: &Table<String>, data: &Table<String>, params: &Table<String>) -> (r: Result<Table<String>, RunFailure>)
    ensures
        match r {
            Ok(t) => t.entries@.len() == headers.entries@.len()
                && forall|i: int| 0 <= i < headers.entries@.len() ==>
                    #[trigger] t.entries@[i].0@ == headers.entries@[i].0@
                    && header_value_of(headers.entries@[i].1@, data@, params@, t.entries@[i].1@),
            Err(f) => exists|i: int| #![trigger headers.entries@[i]] {
                &&& 0 <= i < headers.entries@.len()
                &&& forall|j: int| 0 <= j < i ==> #[trigger] rendered_template(headers.entries@[j].1@, data@) is Ok
                &&& rendered_template(headers.entries@[i].1@, data@) matches Err(m)
                &&& f matches RunFailure::Abort(x)
                &&& x@ == m
            },
        },
{
    let mut out: Vec<(String, String)> = Vec::new();
    let mut i: usize = 0;
    while i < headers.entries.len()
        invariant
            i <= headers.entries@.len(),
            out@.len() == i,
            forall|j: int| 0 <= j < i ==>
                #[trigger] out@[j].0@ == headers.entries@[j].0@
                && header_value_of(headers.entries@[j].1@, data@, params@, out@[j].1@),
        decreases headers.entries.len() - i,
    {
        match render_template(headers.entries[i].1.as_str(), data) {
            Ok(v) => {
                let w = replace_params(v, params);
                out.push((headers.entries[i].0.clone(), w));
            },
            Err(m) => {
                assert forall|j: int| 0 <= j < i implies #[trigger] rendered_template(headers.entries@[j].1@, data@) is Ok by {
                    assert(out@[j].0@ == headers.entries@[j].0@);
                }
                let ghost e = headers.entries@[i as int];
                return Err(RunFailure::Abort(m));
            },
        }
        i = i + 1;
    }
    Ok(Table { entries: out })
}

/// A body read from a file: the path, and the text or the read error's text.
pub struct BodyFile {
    pub path: String,
    pub content: Result<String, String>,
}

/// The body to send and the body fields that name files to upload.
pub struct PlannedBody {
    pub body: Option<String>,
    pub file_fields: Vec<(String, String)>,
}

/// The message for a body file that cannot be read.
pub open spec fn body_file_error(path: Seq<char>, err: Seq<char>) -> Seq<char> {
    "Failed to read body file '"@ + path + "': "@ + err
}

/// The body of a call:
/// - from a body file when one is given: its text with its environment
///   variables rendered (when it has any); a read error or a render error is
///   reported;
/// - else from the command's body, written as pretty JSON and rendered (a
///   render error aborts), then typed substitution of the parameters;
/// - else no body.
pub fn build_body(
    command: &Command,
    data: &Table<String>,
    params: &Table<String>,
    body_file: Option<BodyFile>,
    existing_files: &Vec<String>,
) -> (r: Result<PlannedBody, RunFailure>)
    ensures
        match body_file {
            Some(bf) => match bf.content {
                Err(e) => r matches Err(RunFailure::Error(x)) && x.message@ == body_file_error(bf.path@, e@),
                Ok(c) => (match render_if_templated(c@, data@) {
                    Ok(t) => r matches Ok(p) && p.body matches Some(b) && b@ == t && p.file_fields@.len() == 0,
                    Err(m) => r matches Err(RunFailure::Error(x)) && x.message@ == m,
                }) && (!contains_text(c@, "{{"@) ==> (r matches Ok(p) && p.body matches Some(b) && b@ == c@)),
            },
            None => match command.body {
                None => r matches Ok(p) && p.body is None && p.file_fields@.len() == 0,
                Some(b) => match rendered_template(pretty_json(b@), data@) {
                    Err(m) => r matches Err(RunFailure::Abort(x)) && x@ == m,
                    Ok(t) => match typed_substitution(t, pair_views(params.entries@), declared_types(strings_in(b@)), string_views(existing_files@)) {
                        Ok(st) => r matches Ok(p) && p.body matches Some(x) && x@ == st.0 && pair_views(p.file_fields@) == st.1,
                        Err(m) => r matches Err(RunFailure::Error(x)) && x.message@ == m,
                    },
                },
            },
        },
{
    match body_file {
        Some(bf) => match bf.content {
            Err(e) => {
                let m1 = concat("Failed to read body file '", bf.path.as_str());
                let m2 = concat(m1.as_str(), "': ");
                let m3 = concat(m2.as_str(), e.as_str());
                Err(RunFailure::Error(CliError::new(m3)))
            },
            Ok(c) => {
                if env_var_pattern_matches(c.as_str()) {
                    match render_template(c.as_str(), data) {
                        Ok(t) => Ok(PlannedBody { body: Some(t), file_fields: Vec::new() }),
                        Err(m) => Err(RunFailure::Error(CliError::new(m))),
                    }
                } else {
                    Ok(PlannedBody { body: Some(c), file_fields: Vec::new() })
                }
            },
        },
        None => match &command.body {
            None => Ok(PlannedBody { body: None, file_fields: Vec::new() }),
            Some(b) => {
                let serialized = to_pretty_string(b);
                let rendered = match render_template(serialized.as_str(), data) {
                    Ok(t) => t,
                    Err(m) => {
                        return Err(RunFailure::Abort(m));
                    },
                };
                let types = command.body_param_types();
                match replace_params_typed(rendered, params, &types, existing_files) {
                    Ok(t) => Ok(PlannedBody { body: Some(t.body), file_fields: t.file_fields }),
                    Err(e) => Err(RunFailure::Error(e)),
                }
            },
        },
    }
}

} // verus!
