//! Generation of a config from an OpenAPI description: one command per
//! operation, grouped by tag.

use vstd::prelude::*;
use convert_case::{Case, Casing};
use crate::cli::run::{concat, contains_string, route_placeholder};
use crate::domain::command::{Command, Postscript};
use crate::domain::config::{CommandType, Config};
use crate::json::{obj_insert, object_insert, view_entries, JsonValue, JsonView};
use crate::table::{entries_map, Table};
use crate::text::{
    chars_of, has_prefix, replace, replace_all, slice_string, split_char, split_on, string_views, trim_char,
    trim_matches,
};
use crate::utils::http::HttpMethod;

verus! {

/// An item given in place or by a reference (`$ref`).
pub enum RefOr<T> {
    Item(T),
    Reference(String),
}

/// Where a parameter goes.
pub enum ParameterLocation {
    Path,
    Query,
    Header,
    Cookie,
}

/// An operation parameter.
pub struct ParameterModel {
    pub location: ParameterLocation,
    pub name: String,
}

/// The type of a schema.
pub enum SchemaType {
    String,
    Number,
    Integer,
    Boolean,
    Array,
    Object,
    Other,
}

/// A schema: its type, and for an object the types of its properties.
pub struct SchemaModel {
    pub kind: SchemaType,
    pub properties: Vec<(String, RefOr<SchemaType>)>,
}

/// A request body: its contents by media type, each with its schema when it
/// has one.
pub struct RequestBodyModel {
    pub content: Vec<(String, Option<RefOr<SchemaModel>>)>,
}

/// The reusable schemas and request bodies.
pub struct ComponentsModel {
    pub schemas: Vec<(String, RefOr<SchemaModel>)>,
    pub request_bodies: Vec<(String, RefOr<RequestBodyModel>)>,
}

/// An operation.
pub struct OperationModel {
    pub tags: Vec<String>,
    pub operation_id: Option<String>,
    pub parameters: Vec<RefOr<ParameterModel>>,
    pub request_body: Option<RefOr<RequestBodyModel>>,
}

/// The operations of a path.
pub struct PathItemModel {
    pub get: Option<OperationModel>,
    pub post: Option<OperationModel>,
    pub put: Option<OperationModel>,
    pub delete: Option<OperationModel>,
    pub patch: Option<OperationModel>,
}

/// An OpenAPI description: server URLs, paths, components.
pub struct OpenApiModel {
    pub servers: Vec<String>,
    pub paths: Vec<(String, RefOr<PathItemModel>)>,
    pub components: Option<ComponentsModel>,
}

/// What `convert_case` makes of a text with `to_case(Case::Kebab)`.
pub uninterp spec fn kebab_case(s: Seq<char>) -> Seq<char>;

/// The kebab-case form of `s` (`convert_case`, `Case::Kebab`). The contract
/// claims only that the result is the one named `kebab_case`.
#[verifier::external_body]
fn to_kebab_case(s: &str) -> (r: String)
    ensures
        r@ == kebab_case(s@),
{
    s.to_case(Case::Kebab)
}

/// The model of an optional string.
pub open spec fn opt_str(o: Option<String>) -> Option<Seq<char>> {
    match o {
        Some(s) => Some(s@),
        None => None,
    }
}

/// `{name}`, a path template variable.
pub open spec fn braced(name: Seq<char>) -> Seq<char> {
    seq!['{'] + name + seq!['}']
}

/// One parameter of the route: a path parameter turns `{name}` into `:name`;
/// a query parameter adds `name=:name` to the query.
pub open spec fn route_step(st: (Seq<char>, Seq<Seq<char>>), p: RefOr<ParameterModel>) -> (Seq<char>, Seq<Seq<char>>) {
    match p {
        RefOr::Item(pm) => match pm.location {
            ParameterLocation::Path => (replace_all(st.0, braced(pm.name@), route_placeholder(pm.name@)), st.1),
            ParameterLocation::Query => (st.0, st.1.push(pm.name@ + seq!['=', ':'] + pm.name@)),
            _ => st,
        },
        RefOr::Reference(_) => st,
    }
}

/// The route and the query parameters after the parameters, in order.
pub open spec fn route_state(path: Seq<char>, params: Seq<RefOr<ParameterModel>>) -> (Seq<char>, Seq<Seq<char>>)
    decreases params.len(),
{
    if params.len() == 0 {
        (path, Seq::empty())
    } else {
        route_step(route_state(path, params.drop_last()), params.last())
    }
}

/// The pieces joined with `sep` between them.
pub open spec fn join_with(parts: Seq<Seq<char>>, sep: Seq<char>) -> Seq<char>
    decreases parts.len(),
{
    if parts.len() == 0 {
        Seq::empty()
    } else if parts.len() == 1 {
        parts[0]
    } else {
        join_with(parts.drop_last(), sep) + sep + parts.last()
    }
}

/// The route of an operation with its parameters: path parameters as
/// `:name`, query parameters appended as `?a=:a&b=:b`.
pub open spec fn path_and_query(path: Seq<char>, params: Seq<RefOr<ParameterModel>>) -> Seq<char> {
    let st = route_state(path, params);
    if st.1.len() == 0 {
        st.0
    } else {
        st.0 + seq!['?'] + join_with(st.1, seq!['&'])
    }
}

/// The route of an operation with its parameters (see `path_and_query`).
pub fn process_path_and_query(path: &String, parameters: &Vec<RefOr<ParameterModel>>) -> (r: String)
    ensures
        r@ == path_and_query(path@, parameters@),
{
    let mut result = path.clone();
    let mut query_params: Vec<String> = Vec::new();
    let mut i: usize = 0;
    while i < parameters.len()
        invariant
            i <= parameters@.len(),
            route_state(path@, parameters@.take(i as int)) == (result@, string_views(query_params@)),
        decreases parameters.len() - i,
    {
        assert(parameters@.take(i + 1).drop_last() =~= parameters@.take(i as int));
        match &parameters[i] {
            RefOr::Item(pm) => match pm.location {
                ParameterLocation::Path => {
                    let a = concat("{", pm.name.as_str());
                    let pat = concat(a.as_str(), "}");
                    let b = concat(":", pm.name.as_str());
                    proof {
                        reveal_strlit("{");
                        reveal_strlit("}");
                        reveal_strlit(":");
                    }
                    assert(pat@ =~= braced(pm.name@));
                    assert(b@ =~= route_placeholder(pm.name@));
                    result = replace(result.as_str(), pat.as_str(), b.as_str());
                },
                ParameterLocation::Query => {
                    let a = concat(pm.name.as_str(), "=:");
                    let q = concat(a.as_str(), pm.name.as_str());
                    proof {
                        reveal_strlit("=:");
                    }
                    assert(q@ =~= pm.name@ + seq!['=', ':'] + pm.name@);
                    let ghost before = string_views(query_params@);
                    query_params.push(q);
                    assert(string_views(query_params@) =~= before.push(pm.name@ + seq!['=', ':'] + pm.name@));
                },
                _ => {},
            },
            RefOr::Reference(_) => {},
        }
        i = i + 1;
    }
    assert(parameters@.take(i as int) =~= parameters@);
    if query_params.len() == 0 {
        result
    } else {
        let mut joined = String::new();
        let mut j: usize = 0;
        while j < query_params.len()
            invariant
                j <= query_params@.len(),
                joined@ == join_with(string_views(query_params@).take(j as int), seq!['&']),
            decreases query_params.len() - j,
        {
            let ghost parts = string_views(query_params@).take(j + 1);
            assert(parts.drop_last() =~= string_views(query_params@).take(j as int));
            if j > 0 {
                joined = concat(joined.as_str(), "&");
                proof {
                    reveal_strlit("&");
                }
            }
            joined = concat(joined.as_str(), query_params[j].as_str());
            assert(joined@ =~= join_with(parts, seq!['&']));
            j = j + 1;
        }
        assert(string_views(query_params@).take(j as int) =~= string_views(query_params@));
        let with_mark = concat(result.as_str(), "?");
        proof {
            reveal_strlit("?");
        }
        let r = concat(with_mark.as_str(), joined.as_str());
        assert(r@ =~= path_and_query(path@, parameters@));
        r
    }
}

/// The default value of a property in a generated body: by its type, `""`,
/// `0`, `false`, `[]`, `{}`, or `null`; a referenced schema gives `{}`.
pub open spec fn property_default(p: RefOr<SchemaType>) -> JsonView {
    match p {
        RefOr::Item(t) => match t {
            SchemaType::String => JsonView::Str(Seq::empty()),
            SchemaType::Number => JsonView::Number("0"@),
            SchemaType::Integer => JsonView::Number("0"@),
            SchemaType::Boolean => JsonView::Bool(false),
            SchemaType::Array => JsonView::Array(Seq::empty()),
            SchemaType::Object => JsonView::Object(Seq::empty()),
            SchemaType::Other => JsonView::Null,
        },
        RefOr::Reference(_) => JsonView::Object(Seq::empty()),
    }
}

/// The entries of a generated object body: each property with its default,
/// inserted in order into an object kept in key order.
pub open spec fn props_object(ps: Seq<(String, RefOr<SchemaType>)>) -> Seq<(Seq<char>, JsonView)>
    decreases ps.len(),
{
    if ps.len() == 0 {
        Seq::empty()
    } else {
        obj_insert(props_object(ps.drop_last()), ps.last().0@, property_default(ps.last().1))
    }
}

/// The generated body of a schema: for an object, its properties with their
/// defaults; for anything else, `{}`.
pub open spec fn schema_default(s: SchemaModel) -> JsonView {
    match s.kind {
        SchemaType::Object => JsonView::Object(props_object(s.properties@)),
        _ => JsonView::Object(Seq::empty()),
    }
}

fn empty_object() -> (v: JsonValue)
    ensures
        v@ == JsonView::Object(Seq::empty()),
{
    let v = JsonValue::Object(Vec::new());
    assert(view_entries(Seq::<(String, JsonValue)>::empty()) =~= Seq::<(Seq<char>, JsonView)>::empty());
    v
}

fn default_for_property(p: &RefOr<SchemaType>) -> (v: JsonValue)
    ensures
        v@ == property_default(*p),
{
    match p {
        RefOr::Item(t) => match t {
            SchemaType::String => JsonValue::Str(String::new()),
            SchemaType::Number => JsonValue::Number(String::from_str("0")),
            SchemaType::Integer => JsonValue::Number(String::from_str("0")),
            SchemaType::Boolean => JsonValue::Bool(false),
            SchemaType::Array => {
                let v = JsonValue::Array(Vec::new());
                assert(crate::json::view_items(Seq::<JsonValue>::empty()) =~= Seq::<JsonView>::empty());
                v
            },
            SchemaType::Object => empty_object(),
            SchemaType::Other => JsonValue::Null,
        },
        RefOr::Reference(_) => empty_object(),
    }
}

/// The generated body of a schema (see `schema_default`).
pub fn process_schema(schema: &SchemaModel) -> (r: Option<JsonValue>)
    ensures
        r matches Some(v) && v@ == schema_default(*schema),
{
    match schema.kind {
        SchemaType::Object => {
            let mut entries: Vec<(String, JsonValue)> = Vec::new();
            let mut i: usize = 0;
            assert(view_entries(entries@) =~= props_object(schema.properties@.take(0)));
            while i < schema.properties.len()
                invariant
                    i <= schema.properties@.len(),
                    view_entries(entries@) == props_object(schema.properties@.take(i as int)),
                decreases schema.properties.len() - i,
            {
                let k = schema.properties[i].0.clone();
                let d = default_for_property(&schema.properties[i].1);
                object_insert(&mut entries, k, d);
                assert(schema.properties@.take(i + 1).drop_last() =~= schema.properties@.take(i as int));
                i = i + 1;
            }
            assert(schema.properties@.take(i as int) =~= schema.properties@);
            Some(JsonValue::Object(entries))
        },
        _ => Some(empty_object()),
    }
}

/// The name that a reference `#/components/<kind>/<name>` points to: the
/// reference must have exactly four `/`-separated parts, the second being
/// `components` and the third `kind`.
pub open spec fn ref_target(reference: Seq<char>, kind: Seq<char>) -> Option<Seq<char>> {
    let parts = split_char(reference, '/');
    if parts.len() == 4 && parts[1] == "components"@ && parts[2] == kind {
        Some(parts[3])
    } else {
        None
    }
}

fn reference_target(reference: &String, kind: &str) -> (r: Option<String>)
    ensures
        opt_str(r) == ref_target(reference@, kind@),
{
    let parts = split_on(reference.as_str(), '/');
    assert(string_views(parts@).len() == parts@.len());
    if parts.len() == 4 && parts[1].eq(&String::from_str("components")) && parts[2].eq(&String::from_str(kind)) {
        assert(string_views(parts@)[3] == parts@[3]@);
        Some(parts[3].clone())
    } else {
        proof {
            if parts.len() == 4 {
                assert(string_views(parts@)[1] == parts@[1]@);
                assert(string_views(parts@)[2] == parts@[2]@);
            }
        }
        None
    }
}

/// The item of the first entry named `k`.
pub open spec fn lookup<T>(s: Seq<(String, T)>, k: Seq<char>) -> Option<T>
    decreases s.len(),
{
    if s.len() == 0 {
        None
    } else if s[0].0@ == k {
        Some(s[0].1)
    } else {
        lookup(s.drop_first(), k)
    }
}

pub(crate) fn find_named<'a, T>(s: &'a Vec<(String, T)>, k: &String) -> (r: Option<&'a T>)
    ensures
        match lookup(s@, k@) {
            Some(t) => r matches Some(x) && *x == t,
            None => r is None,
        },
{
    let mut i: usize = 0;
    assert(s@.skip(0) =~= s@);
    while i < s.len()
        invariant
            i <= s@.len(),
            lookup(s@, k@) == lookup(s@.skip(i as int), k@),
        decreases s.len() - i,
    {
        if s[i].0.eq(k) {
            return Some(&s[i].1);
        }
        assert(s@.skip(i as int).drop_first() =~= s@.skip(i + 1));
        i = i + 1;
    }
    None
}

/// The generated body of a schema given in place or by reference, following
/// at most `fuel` references; `None` when that is not enough. A reference
/// that is not `#/components/schemas/<name>` gives no body, an unknown name
/// gives `{}`.
pub open spec fn resolve_schema(c: ComponentsModel, r: RefOr<SchemaModel>, fuel: nat) -> Option<Option<JsonView>>
    decreases fuel,
{
    match r {
        RefOr::Item(s) => Some(Some(schema_default(s))),
        RefOr::Reference(t) => match ref_target(t@, "schemas"@) {
            None => Some(None),
            Some(name) => match lookup(c.schemas@, name) {
                None => Some(Some(JsonView::Object(Seq::empty()))),
                Some(r2) => if fuel == 0 {
                    None
                } else {
                    resolve_schema(c, r2, (fuel - 1) as nat)
                },
            },
        },
    }
}

/// The model of an optional generated body.
pub open spec fn body_view(o: Option<JsonValue>) -> Option<JsonView> {
    match o {
        Some(v) => Some(v@),
        None => None,
    }
}

/// The model of the outcome of a resolution.
pub open spec fn outcome_view(o: Option<Option<JsonValue>>) -> Option<Option<JsonView>> {
    match o {
        Some(b) => Some(body_view(b)),
        None => None,
    }
}

fn resolve_schema_ref(c: &ComponentsModel, r: &RefOr<SchemaModel>, fuel: usize) -> (out: Option<Option<JsonValue>>)
    ensures
        outcome_view(out) == resolve_schema(*c, *r, fuel as nat),
    decreases fuel,
{
    match r {
        RefOr::Item(s) => Some(process_schema(s)),
        RefOr::Reference(t) => match reference_target(t, "schemas") {
            None => Some(None),
            Some(name) => match find_named(&c.schemas, &name) {
                None => Some(Some(empty_object())),
                Some(r2) => if fuel == 0 {
                    None
                } else {
                    resolve_schema_ref(c, r2, fuel - 1)
                },
            },
        },
    }
}

/// The generated body of an optional schema (see `resolve_schema`), with as
/// many references allowed as there are schemas.
pub open spec fn extract_schema_spec(c: ComponentsModel, schema_opt: Option<RefOr<SchemaModel>>) -> Option<Option<JsonView>> {
    match schema_opt {
        Some(r) => resolve_schema(c, r, c.schemas@.len()),
        None => Some(None),
    }
}

/// The generated body of an optional schema; `None` when its references
/// never end (they come back to a schema already visited).
pub fn extract_schema(schema_opt: &Option<RefOr<SchemaModel>>, components: &ComponentsModel) -> (out: Option<Option<JsonValue>>)
    ensures
        outcome_view(out) == extract_schema_spec(*components, *schema_opt),
{
    match schema_opt {
        Some(r) => resolve_schema_ref(components, r, components.schemas.len()),
        None => Some(None),
    }
}

/// The generated body of a request body given in place or by reference,
/// following at most `fuel` references to request bodies: from the schema of
/// its `application/json` content (the first such entry), and no body
/// without such content.
pub open spec fn resolve_body(c: ComponentsModel, r: RefOr<RequestBodyModel>, fuel: nat) -> Option<Option<JsonView>>
    decreases fuel,
{
    match r {
        RefOr::Item(b) => match lookup(b.content@, "application/json"@) {
            Some(schema_opt) => extract_schema_spec(c, schema_opt),
            None => Some(None),
        },
        RefOr::Reference(t) => match ref_target(t@, "requestBodies"@) {
            None => Some(None),
            Some(name) => match lookup(c.request_bodies@, name) {
                None => Some(None),
                Some(r2) => if fuel == 0 {
                    None
                } else {
                    resolve_body(c, r2, (fuel - 1) as nat)
                },
            },
        },
    }
}

fn resolve_body_ref(c: &ComponentsModel, r: &RefOr<RequestBodyModel>, fuel: usize) -> (out: Option<Option<JsonValue>>)
    ensures
        outcome_view(out) == resolve_body(*c, *r, fuel as nat),
    decreases fuel,
{
    match r {
        RefOr::Item(b) => match find_named(&b.content, &String::from_str("application/json")) {
            Some(schema_opt) => extract_schema(schema_opt, c),
            None => Some(None),
        },
        RefOr::Reference(t) => match reference_target(t, "requestBodies") {
            None => Some(None),
            Some(name) => match find_named(&c.request_bodies, &name) {
                None => Some(None),
                Some(r2) => if fuel == 0 {
                    None
                } else {
                    resolve_body_ref(c, r2, fuel - 1)
                },
            },
        },
    }
}

/// The generated body of a request body, with as many references allowed as
/// there are request bodies; `None` when its references never end.
pub fn extract_request_body(request_body: &RefOr<RequestBodyModel>, components: &ComponentsModel) -> (out: Option<Option<JsonValue>>)
    ensures
        outcome_view(out) == resolve_body(*components, *request_body, components.request_bodies@.len()),
{
    resolve_body_ref(components, request_body, components.request_bodies.len())
}

/// The generated body of an operation: from its request body when it has one
/// and there are components; otherwise none.
pub open spec fn operation_body(op: OperationModel, comps: Option<ComponentsModel>) -> Option<Option<JsonView>> {
    match (op.request_body, comps) {
        (Some(rb), Some(c)) => resolve_body(c, rb, c.request_bodies@.len()),
        _ => Some(None),
    }
}

/// The command for an operation found under `method` in its path item: that
/// method, the URL
/// `{{API_URL}}` followed by its route (see `path_and_query`), its generated
/// body, no headers and no postscript. `None` when the references of its
/// body never end.
pub fn create_command_for_operation(path: &String, operation: &OperationModel, method: HttpMethod, components: &Option<ComponentsModel>) -> (r: Option<Command>)
    ensures
        match operation_body(*operation, *components) {
            None => r is None,
            Some(b) => r matches Some(c)
                && c.method == method
                && c.url@ == "{{API_URL}}"@ + path_and_query(path@, operation.parameters@)
                && body_view(c.body) == b
                && c.postscript is None
                && c.headers.wf()
                && c.headers@ == Map::<Seq<char>, Seq<char>>::empty(),
        },
{
    let url = process_path_and_query(path, &operation.parameters);
    let body = match (&operation.request_body, components) {
        (Some(rb), Some(c)) => match extract_request_body(rb, c) {
            Some(b) => b,
            None => {
                return None;
            },
        },
        _ => None,
    };
    Some(Command { method, url: concat("{{API_URL}}", url.as_str()), body, postscript: None, headers: Table::new() })
}

/// The first non-empty piece.
pub open spec fn first_nonempty(parts: Seq<Seq<char>>) -> Option<Seq<char>>
    decreases parts.len(),
{
    if parts.len() == 0 {
        None
    } else if parts[0].len() > 0 {
        Some(parts[0])
    } else {
        first_nonempty(parts.drop_first())
    }
}

/// The section (tag) of an operation: its first tag, else the first non-empty
/// segment of its path, else `default`.
pub open spec fn section_of(path: Seq<char>, op: OperationModel) -> Seq<char> {
    if op.tags@.len() > 0 {
        op.tags@[0]@
    } else {
        match first_nonempty(split_char(path, '/')) {
            Some(s) => s,
            None => "default"@,
        }
    }
}

/// The section of an operation (see `section_of`).
pub fn section_for(path: &String, op: &OperationModel) -> (r: String)
    ensures
        r@ == section_of(path@, *op),
{
    if op.tags.len() > 0 {
        return op.tags[0].clone();
    }
    let parts = split_on(path.as_str(), '/');
    let ghost ps = string_views(parts@);
    let mut i: usize = 0;
    assert(ps.skip(0) =~= ps);
    while i < parts.len()
        invariant
            i <= parts@.len(),
            ps == string_views(parts@),
            ps == split_char(path@, '/'),
            op.tags@.len() == 0,
            ps.len() == parts@.len(),
            first_nonempty(ps) == first_nonempty(ps.skip(i as int)),
        decreases parts.len() - i,
    {
        assert(ps[i as int] == parts@[i as int]@);
        if !parts[i].as_str().is_empty() {
            assert(ps.skip(i as int)[0] == ps[i as int]);
            return parts[i].clone();
        }
        assert(ps.skip(i as int).drop_first() =~= ps.skip(i + 1));
        i = i + 1;
    }
    String::from_str("default")
}

/// The name of the command for an operation in section `tag`: from its id,
/// with `/` turned into `-`, in kebab case, without a leading `<tag>-`;
/// without an id, from its path with `/` turned into `-` and no `-` at
/// either end.
pub open spec fn command_name(path: Seq<char>, op: OperationModel, tag: Seq<char>) -> Seq<char> {
    match op.operation_id {
        Some(id) => {
            let name = kebab_case(replace_all(id@, "/"@, "-"@));
            let pre = tag + "-"@;
            if pre.is_prefix_of(name) {
                name.skip(pre.len() as int)
            } else {
                name
            }
        },
        None => trim_char(replace_all(path, "/"@, "-"@), '-'),
    }
}

/// The name of the command for an operation (see `command_name`).
pub fn command_name_for(path: &String, op: &OperationModel, tag: &String) -> (r: String)
    ensures
        r@ == command_name(path@, *op, tag@),
{
    proof {
        reveal_strlit("/");
        reveal_strlit("-");
    }
    match &op.operation_id {
        Some(id) => {
            let dashed = replace(id.as_str(), "/", "-");
            let name = to_kebab_case(dashed.as_str());
            let pre = concat(tag.as_str(), "-");
            if has_prefix(name.as_str(), pre.as_str()) {
                let cs = chars_of(name.as_str());
                let pc = chars_of(pre.as_str());
                let r = slice_string(cs.as_slice(), pc.len(), cs.len());
                assert(r@ =~= name@.skip(pre@.len() as int));
                r
            } else {
                name
            }
        },
        None => {
            let dashed = replace(path.as_str(), "/", "-");
            trim_matches(dashed.as_str(), '-')
        },
    }
}

/// An optional operation of a path under the method `m`, as a sequence of
/// at most one.
pub open spec fn opt_op(path: Seq<char>, o: Option<OperationModel>, m: HttpMethod) -> Seq<(Seq<char>, OperationModel, HttpMethod)> {
    match o {
        Some(op) => seq![(path, op, m)],
        None => Seq::empty(),
    }
}

/// The operations of a path item, each with the method of its slot, in the
/// order GET, POST, PUT, DELETE, PATCH.
pub open spec fn item_operations(path: Seq<char>, item: PathItemModel) -> Seq<(Seq<char>, OperationModel, HttpMethod)> {
    opt_op(path, item.get, HttpMethod::GET) + opt_op(path, item.post, HttpMethod::POST)
        + opt_op(path, item.put, HttpMethod::PUT) + opt_op(path, item.delete, HttpMethod::DELETE)
        + opt_op(path, item.patch, HttpMethod::PATCH)
}

/// The operations of the paths, in order; a path given by reference has none.
pub open spec fn operations_of(paths: Seq<(String, RefOr<PathItemModel>)>) -> Seq<(Seq<char>, OperationModel, HttpMethod)>
    decreases paths.len(),
{
    if paths.len() == 0 {
        Seq::empty()
    } else {
        operations_of(paths.drop_last()) + match paths.last().1 {
            RefOr::Item(item) => item_operations(paths.last().0@, item),
            RefOr::Reference(_) => Seq::empty(),
        }
    }
}

/// Each operation of a path item is collected with the method of its slot:
/// the operation in the `get` slot with GET, in `post` with POST, in `put`
/// with PUT, in `delete` with DELETE and in `patch` with PATCH, whatever the
/// other slots hold.
pub proof fn law_operations_keep_slot_methods(paths: Seq<(String, RefOr<PathItemModel>)>, i: int)
    requires
        0 <= i < paths.len(),
        paths[i].1 is Item,
    ensures
        ({
            let item = paths[i].1->Item_0;
            let p = paths[i].0@;
            let ops = operations_of(paths);
            &&& item.get matches Some(op) ==> ops.contains((p, op, HttpMethod::GET))
            &&& item.post matches Some(op) ==> ops.contains((p, op, HttpMethod::POST))
            &&& item.put matches Some(op) ==> ops.contains((p, op, HttpMethod::PUT))
            &&& item.delete matches Some(op) ==> ops.contains((p, op, HttpMethod::DELETE))
            &&& item.patch matches Some(op) ==> ops.contains((p, op, HttpMethod::PATCH))
        }),
        forall|j: int| 0 <= j < operations_of(paths).len() ==> {
            let e = #[trigger] operations_of(paths)[j];
            exists|k: int| 0 <= k < paths.len() && paths[k].0@ == e.0 && (paths[k].1 matches RefOr::Item(it) && (
                (it.get == Some(e.1) && e.2 == HttpMethod::GET)
                || (it.post == Some(e.1) && e.2 == HttpMethod::POST)
                || (it.put == Some(e.1) && e.2 == HttpMethod::PUT)
                || (it.delete == Some(e.1) && e.2 == HttpMethod::DELETE)
                || (it.patch == Some(e.1) && e.2 == HttpMethod::PATCH)))
        },
{
    lemma_operations_from_slots(paths);
    lemma_slot_operations_collected(paths, i);
}

/// Every collected operation comes from a slot of some path item, with that
/// slot's method.
#[verifier::spinoff_prover]
proof fn lemma_operations_from_slots(paths: Seq<(String, RefOr<PathItemModel>)>)
    ensures
        forall|j: int| 0 <= j < operations_of(paths).len() ==> {
            let e = #[trigger] operations_of(paths)[j];
            exists|k: int| 0 <= k < paths.len() && paths[k].0@ == e.0 && (paths[k].1 matches RefOr::Item(it) && (
                (it.get == Some(e.1) && e.2 == HttpMethod::GET)
                || (it.post == Some(e.1) && e.2 == HttpMethod::POST)
                || (it.put == Some(e.1) && e.2 == HttpMethod::PUT)
                || (it.delete == Some(e.1) && e.2 == HttpMethod::DELETE)
                || (it.patch == Some(e.1) && e.2 == HttpMethod::PATCH)))
        },
    decreases paths.len(),
{
    if paths.len() > 0 {
        let prev = paths.drop_last();
        lemma_operations_from_slots(prev);
        let ops = operations_of(paths);
        let pops = operations_of(prev);
        let last = paths.len() - 1;
        let tail = match paths.last().1 {
            RefOr::Item(item) => item_operations(paths.last().0@, item),
            RefOr::Reference(_) => Seq::<(Seq<char>, OperationModel, HttpMethod)>::empty(),
        };
        assert(ops == pops + tail);
        assert forall|j: int| 0 <= j < ops.len() implies {
            let e = #[trigger] ops[j];
            exists|k: int| 0 <= k < paths.len() && paths[k].0@ == e.0 && (paths[k].1 matches RefOr::Item(it) && (
                (it.get == Some(e.1) && e.2 == HttpMethod::GET)
                || (it.post == Some(e.1) && e.2 == HttpMethod::POST)
                || (it.put == Some(e.1) && e.2 == HttpMethod::PUT)
                || (it.delete == Some(e.1) && e.2 == HttpMethod::DELETE)
                || (it.patch == Some(e.1) && e.2 == HttpMethod::PATCH)))
        } by {
            if j < pops.len() {
                let e = pops[j];
                assert(ops[j] == e);
                let k = choose|k: int| 0 <= k < prev.len() && prev[k].0@ == e.0 && (prev[k].1 matches RefOr::Item(it) && (
                    (it.get == Some(e.1) && e.2 == HttpMethod::GET)
                    || (it.post == Some(e.1) && e.2 == HttpMethod::POST)
                    || (it.put == Some(e.1) && e.2 == HttpMethod::PUT)
                    || (it.delete == Some(e.1) && e.2 == HttpMethod::DELETE)
                    || (it.patch == Some(e.1) && e.2 == HttpMethod::PATCH)));
                assert(prev[k] == paths[k]);
            } else {
                assert(ops[j] == tail[j - pops.len()]);
                assert(paths[last] == paths.last());
            }
        }
    }
}

/// Each operation in a slot of a path item is collected with that slot's
/// method.
#[verifier::spinoff_prover]
proof fn lemma_slot_operations_collected(paths: Seq<(String, RefOr<PathItemModel>)>, i: int)
    requires
        0 <= i < paths.len(),
        paths[i].1 is Item,
    ensures
        ({
            let item = paths[i].1->Item_0;
            let p = paths[i].0@;
            let ops = operations_of(paths);
            &&& item.get matches Some(op) ==> ops.contains((p, op, HttpMethod::GET))
            &&& item.post matches Some(op) ==> ops.contains((p, op, HttpMethod::POST))
            &&& item.put matches Some(op) ==> ops.contains((p, op, HttpMethod::PUT))
            &&& item.delete matches Some(op) ==> ops.contains((p, op, HttpMethod::DELETE))
            &&& item.patch matches Some(op) ==> ops.contains((p, op, HttpMethod::PATCH))
        }),
    decreases paths.len(),
{
    let prev = paths.drop_last();
    let ops = operations_of(paths);
    let pops = operations_of(prev);
    if i < paths.len() - 1 {
        assert(prev[i] == paths[i]);
        lemma_slot_operations_collected(prev, i);
        let tail = match paths.last().1 {
            RefOr::Item(item) => item_operations(paths.last().0@, item),
            RefOr::Reference(_) => Seq::<(Seq<char>, OperationModel, HttpMethod)>::empty(),
        };
        assert(ops == pops + tail);
        assert forall|e: (Seq<char>, OperationModel, HttpMethod)| pops.contains(e) implies ops.contains(e) by {
            let j = choose|j: int| 0 <= j < pops.len() && pops[j] == e;
            assert(ops[j] == e);
        }
    } else {
        let item = paths[i].1->Item_0;
        let p = paths[i].0@;
        assert(paths.last() == paths[i]);
        let tail = item_operations(p, item);
        assert(ops == pops + tail);
        lemma_item_slots(p, item);
        assert forall|e: (Seq<char>, OperationModel, HttpMethod)| tail.contains(e) implies ops.contains(e) by {
            let j = choose|j: int| 0 <= j < tail.len() && tail[j] == e;
            assert(ops[pops.len() + j] == e);
        }
    }
}

/// Each operation in a slot of a path item is among the item's operations,
/// with that slot's method.
#[verifier::spinoff_prover]
proof fn lemma_item_slots(p: Seq<char>, item: PathItemModel)
    ensures
        item.get matches Some(op) ==> item_operations(p, item).contains((p, op, HttpMethod::GET)),
        item.post matches Some(op) ==> item_operations(p, item).contains((p, op, HttpMethod::POST)),
        item.put matches Some(op) ==> item_operations(p, item).contains((p, op, HttpMethod::PUT)),
        item.delete matches Some(op) ==> item_operations(p, item).contains((p, op, HttpMethod::DELETE)),
        item.patch matches Some(op) ==> item_operations(p, item).contains((p, op, HttpMethod::PATCH)),
{
    let a = opt_op(p, item.get, HttpMethod::GET);
    let b = opt_op(p, item.post, HttpMethod::POST);
    let c = opt_op(p, item.put, HttpMethod::PUT);
    let d = opt_op(p, item.delete, HttpMethod::DELETE);
    let f = opt_op(p, item.patch, HttpMethod::PATCH);
    let ops = item_operations(p, item);
    assert(ops == a + b + c + d + f);
    if let Some(op) = item.get {
        assert(ops[0] == (p, op, HttpMethod::GET));
    }
    let n1 = a.len() as int;
    if let Some(op) = item.post {
        assert(ops[n1] == (p, op, HttpMethod::POST));
    }
    let n2 = n1 + b.len();
    if let Some(op) = item.put {
        assert(ops[n2] == (p, op, HttpMethod::PUT));
    }
    let n3 = n2 + c.len();
    if let Some(op) = item.delete {
        assert(ops[n3] == (p, op, HttpMethod::DELETE));
    }
    let n4 = n3 + d.len();
    if let Some(op) = item.patch {
        assert(ops[n4] == (p, op, HttpMethod::PATCH));
    }
}

/// The generated command of an operation has the method the operation was
/// collected with.
pub proof fn law_generated_command_keeps_method(path: Seq<char>, op: OperationModel, m: HttpMethod, comps: Option<ComponentsModel>)
    ensures
        operation_command(path, op, m, comps) matches Some(g) ==> g.0 == m,
        operation_command(path, op, m, comps) is Some <==> operation_body(op, comps) is Some,
{
}

/// The sections of the operations, each once, in order of first appearance.
pub open spec fn sections_in(ops: Seq<(Seq<char>, OperationModel, HttpMethod)>) -> Seq<Seq<char>>
    decreases ops.len(),
{
    if ops.len() == 0 {
        Seq::empty()
    } else {
        let s = sections_in(ops.drop_last());
        let t = section_of(ops.last().0, ops.last().1);
        if s.contains(t) {
            s
        } else {
            s.push(t)
        }
    }
}

/// The position of the first entry with key `k`, or the length when none.
pub open spec fn first_key_index<V>(s: Seq<(Seq<char>, V)>, k: Seq<char>) -> int
    decreases s.len(),
{
    if s.len() == 0 {
        0
    } else if s[0].0 == k {
        0
    } else {
        1 + first_key_index(s.drop_first(), k)
    }
}

proof fn lemma_first_key_index<V>(s: Seq<(Seq<char>, V)>, k: Seq<char>, i: int)
    requires
        0 <= i <= s.len(),
        forall|j: int| 0 <= j < i ==> s[j].0 != k,
        i < s.len() ==> s[i].0 == k,
    ensures
        first_key_index(s, k) == i,
    decreases i,
{
    if i > 0 {
        lemma_first_key_index(s.drop_first(), k, i - 1);
    }
}

/// Stores `v` under `k` in an association list: the first entry with key `k`
/// takes the value in place, or a new entry goes at the end.
pub open spec fn assoc_insert<V>(s: Seq<(Seq<char>, V)>, k: Seq<char>, v: V) -> Seq<(Seq<char>, V)> {
    let i = first_key_index(s, k);
    if i < s.len() {
        s.update(i, (k, v))
    } else {
        s.push((k, v))
    }
}

/// A generated command: method, URL and body.
pub type GeneratedCommand = (HttpMethod, Seq<char>, Option<JsonView>);

/// The command for an operation found under method `m` (see
/// `create_command_for_operation`); `None` when the references of its body
/// never end.
pub open spec fn operation_command(path: Seq<char>, op: OperationModel, m: HttpMethod, comps: Option<ComponentsModel>) -> Option<GeneratedCommand> {
    match operation_body(op, comps) {
        None => None,
        Some(b) => Some((m, "{{API_URL}}"@ + path_and_query(path, op.parameters@), b)),
    }
}

/// The commands of section `tag`: its operations in order, each stored under
/// its command name.
pub open spec fn section_commands(
    ops: Seq<(Seq<char>, OperationModel, HttpMethod)>,
    tag: Seq<char>,
    comps: Option<ComponentsModel>,
) -> Option<Seq<(Seq<char>, GeneratedCommand)>>
    decreases ops.len(),
{
    if ops.len() == 0 {
        Some(Seq::empty())
    } else {
        match section_commands(ops.drop_last(), tag, comps) {
            None => None,
            Some(acc) => if section_of(ops.last().0, ops.last().1) == tag {
                match operation_command(ops.last().0, ops.last().1, ops.last().2, comps) {
                    None => None,
                    Some(c) => Some(assoc_insert(acc, command_name(ops.last().0, ops.last().1, tag), c)),
                }
            } else {
                Some(acc)
            },
        }
    }
}

/// The command groups for the given sections, in order, each stored under the
/// kebab-case form of its section.
pub open spec fn groups_for(
    ops: Seq<(Seq<char>, OperationModel, HttpMethod)>,
    sections: Seq<Seq<char>>,
    comps: Option<ComponentsModel>,
) -> Option<Seq<(Seq<char>, Seq<(Seq<char>, GeneratedCommand)>)>>
    decreases sections.len(),
{
    if sections.len() == 0 {
        Some(Seq::empty())
    } else {
        match groups_for(ops, sections.drop_last(), comps) {
            None => None,
            Some(acc) => match section_commands(ops, sections.last(), comps) {
                None => None,
                Some(cmds) => Some(assoc_insert(acc, kebab_case(sections.last()), cmds)),
            },
        }
    }
}

/// A command as generated.
pub open spec fn command_matches(c: Command, g: GeneratedCommand) -> bool {
    &&& c.method == g.0
    &&& c.url@ == g.1
    &&& body_view(c.body) == g.2
    &&& c.postscript is None
    &&& c.headers@ == Map::<Seq<char>, Seq<char>>::empty()
}

/// A group of generated commands.
pub open spec fn group_matches(v: Seq<(String, CommandType)>, g: Seq<(Seq<char>, GeneratedCommand)>) -> bool {
    &&& v.len() == g.len()
    &&& forall|i: int| 0 <= i < v.len() ==> #[trigger] v[i].0@ == g[i].0 && (v[i].1 matches CommandType::Command(c) && command_matches(c, g[i].1))
}

/// The generated command groups.
pub open spec fn groups_match(v: Seq<(String, CommandType)>, g: Seq<(Seq<char>, Seq<(Seq<char>, GeneratedCommand)>)>) -> bool {
    &&& v.len() == g.len()
    &&& forall|i: int| 0 <= i < v.len() ==> #[trigger] v[i].0@ == g[i].0 && (v[i].1 matches CommandType::NestedCommand(n) && group_matches(n@, g[i].1))
}

/// The position of the first entry with key `k`, or the length when none.
fn first_index_of_key<T>(v: &Vec<(String, T)>, k: &String) -> (i: usize)
    ensures
        i <= v@.len(),
        forall|j: int| 0 <= j < i ==> v@[j].0@ != k@,
        i < v@.len() ==> v@[i as int].0@ == k@,
{
    let mut i: usize = 0;
    while i < v.len() && !v[i].0.eq(k)
        invariant
            i <= v@.len(),
            forall|j: int| 0 <= j < i ==> v@[j].0@ != k@,
        decreases v.len() - i,
    {
        i = i + 1;
    }
    i
}

/// The collected operations stand for the given ones.
pub open spec fn ops_match(ops: Seq<(&String, &OperationModel, HttpMethod)>, spec: Seq<(Seq<char>, OperationModel, HttpMethod)>) -> bool {
    &&& ops.len() == spec.len()
    &&& forall|j: int| 0 <= j < ops.len() ==> #[trigger] ops[j].0@ == spec[j].0 && *ops[j].1 == spec[j].1 && ops[j].2 == spec[j].2
}

fn push_operation<'a>(
    ops: &mut Vec<(&'a String, &'a OperationModel, HttpMethod)>,
    path: &'a String,
    o: &'a Option<OperationModel>,
    m: HttpMethod,
    Ghost(target): Ghost<Seq<(Seq<char>, OperationModel, HttpMethod)>>,
)
    requires
        ops_match(old(ops)@, target),
    ensures
        ops_match(final(ops)@, target + opt_op(path@, *o, m)),
{
    if let Some(op) = o {
        ops.push((path, op, m));
        assert forall|j: int| 0 <= j < ops@.len() implies #[trigger] ops@[j].0@ == (target + opt_op(path@, *o, m))[j].0
            && *ops@[j].1 == (target + opt_op(path@, *o, m))[j].1 && ops@[j].2 == (target + opt_op(path@, *o, m))[j].2 by {
            if j < target.len() {
                assert(ops@[j] == old(ops)@[j]);
            }
        }
    } else {
        assert(target + opt_op(path@, *o, m) =~= target);
    }
}

/// The operations of the paths (see `operations_of`).
fn collect_operations<'a>(paths: &'a Vec<(String, RefOr<PathItemModel>)>) -> (ops: Vec<(&'a String, &'a OperationModel, HttpMethod)>)
    ensures
        ops_match(ops@, operations_of(paths@)),
{
    let mut ops: Vec<(&'a String, &'a OperationModel, HttpMethod)> = Vec::new();
    let mut i: usize = 0;
    while i < paths.len()
        invariant
            i <= paths@.len(),
            ops_match(ops@, operations_of(paths@.take(i as int))),
        decreases paths.len() - i,
    {
        let ghost prev = operations_of(paths@.take(i as int));
        assert(paths@.take(i + 1).drop_last() =~= paths@.take(i as int));
        let path = &paths[i].0;
        match &paths[i].1 {
            RefOr::Item(item) => {
                push_operation(&mut ops, path, &item.get, HttpMethod::GET, Ghost(prev));
                let ghost t1 = prev + opt_op(path@, item.get, HttpMethod::GET);
                push_operation(&mut ops, path, &item.post, HttpMethod::POST, Ghost(t1));
                let ghost t2 = t1 + opt_op(path@, item.post, HttpMethod::POST);
                push_operation(&mut ops, path, &item.put, HttpMethod::PUT, Ghost(t2));
                let ghost t3 = t2 + opt_op(path@, item.put, HttpMethod::PUT);
                push_operation(&mut ops, path, &item.delete, HttpMethod::DELETE, Ghost(t3));
                let ghost t4 = t3 + opt_op(path@, item.delete, HttpMethod::DELETE);
                push_operation(&mut ops, path, &item.patch, HttpMethod::PATCH, Ghost(t4));
                assert(t4 + opt_op(path@, item.patch, HttpMethod::PATCH) =~= prev + item_operations(path@, *item));
            },
            RefOr::Reference(_) => {
                assert(operations_of(paths@.take(i + 1)) =~= prev);
            },
        }
        i = i + 1;
    }
    assert(paths@.take(i as int) =~= paths@);
    ops
}

/// Once the commands of a section cannot be made for a prefix of the
/// operations, they cannot be made for all of them.
proof fn lemma_section_none_stays(
    ops: Seq<(Seq<char>, OperationModel, HttpMethod)>,
    tag: Seq<char>,
    comps: Option<ComponentsModel>,
    k: int,
)
    requires
        0 <= k <= ops.len(),
        section_commands(ops.take(k), tag, comps) is None,
    ensures
        section_commands(ops, tag, comps) is None,
    decreases ops.len() - k,
{
    if k < ops.len() {
        assert(ops.take(k + 1).drop_last() =~= ops.take(k));
        lemma_section_none_stays(ops, tag, comps, k + 1);
    } else {
        assert(ops.take(k) =~= ops);
    }
}

/// Once the groups cannot be made for a prefix of the sections, they cannot
/// be made for all of them.
proof fn lemma_groups_none_stays(
    ops: Seq<(Seq<char>, OperationModel, HttpMethod)>,
    sections: Seq<Seq<char>>,
    comps: Option<ComponentsModel>,
    k: int,
)
    requires
        0 <= k <= sections.len(),
        groups_for(ops, sections.take(k), comps) is None,
    ensures
        groups_for(ops, sections, comps) is None,
    decreases sections.len() - k,
{
    if k < sections.len() {
        assert(sections.take(k + 1).drop_last() =~= sections.take(k));
        lemma_groups_none_stays(ops, sections, comps, k + 1);
    } else {
        assert(sections.take(k) =~= sections);
    }
}

/// The commands of section `tag` (see `section_commands`).
#[verifier::spinoff_prover]
#[verifier::rlimit(40)]
fn section_group(
    ops: &Vec<(&String, &OperationModel, HttpMethod)>,
    secs: &Vec<String>,
    tag: &String,
    components: &Option<ComponentsModel>,
    Ghost(spec_ops): Ghost<Seq<(Seq<char>, OperationModel, HttpMethod)>>,
) -> (r: Option<Vec<(String, CommandType)>>)
    requires
        ops_match(ops@, spec_ops),
        secs@.len() == ops@.len(),
        forall|j: int| 0 <= j < secs@.len() ==> #[trigger] secs@[j]@ == section_of(spec_ops[j].0, spec_ops[j].1),
    ensures
        match section_commands(spec_ops, tag@, *components) {
            None => r is None,
            Some(g) => r matches Some(v) && group_matches(v@, g),
        },
{
    let mut group: Vec<(String, CommandType)> = Vec::new();
    let ghost mut acc: Seq<(Seq<char>, GeneratedCommand)> = Seq::empty();
    let mut j: usize = 0;
    while j < ops.len()
        invariant
            j <= ops@.len(),
            ops_match(ops@, spec_ops),
            secs@.len() == ops@.len(),
            forall|m: int| 0 <= m < secs@.len() ==> #[trigger] secs@[m]@ == section_of(spec_ops[m].0, spec_ops[m].1),
            section_commands(spec_ops.take(j as int), tag@, *components) == Some(acc),
            group_matches(group@, acc),
        decreases ops.len() - j,
    {
        assert(spec_ops.take(j + 1).drop_last() =~= spec_ops.take(j as int));
        assert(spec_ops.take(j + 1).last() == spec_ops[j as int]);
        assert(ops@[j as int].0@ == spec_ops[j as int].0);
        assert(*ops@[j as int].1 == spec_ops[j as int].1 && ops@[j as int].2 == spec_ops[j as int].2);
        if secs[j].eq(tag) {
            let path = ops[j].0;
            let op = ops[j].1;
            let cmd = match create_command_for_operation(path, op, ops[j].2.copy(), components) {
                Some(c) => c,
                None => {
                    proof {
                        lemma_section_none_stays(spec_ops, tag@, *components, j + 1);
                    }
                    return None;
                },
            };
            let ghost g: GeneratedCommand = (cmd.method, cmd.url@, body_view(cmd.body));
            let ghost cmd_copy = cmd;
            assert(operation_command(spec_ops[j as int].0, spec_ops[j as int].1, spec_ops[j as int].2, *components) == Some(g));
            let name = command_name_for(path, op, tag);
            let idx = first_index_of_key(&group, &name);
            proof {
                assert forall|m: int| 0 <= m < idx implies acc[m].0 != name@ by {
                    assert(group@[m].0@ == acc[m].0);
                }
                if idx < group@.len() {
                    assert(group@[idx as int].0@ == acc[idx as int].0);
                }
                lemma_first_key_index(acc, name@, idx as int);
            }
            let ghost nm = name@;
            let ghost old_group = group@;
            let entry = (name, CommandType::Command(cmd));
            let ghost e = entry;
            if idx < group.len() {
                group.set(idx, entry);
            } else {
                group.push(entry);
            }
            proof {
                let new_acc = assoc_insert(acc, nm, g);
                assert(command_matches(cmd_copy, g));
                assert(e.0@ == nm && e.1 == CommandType::Command(cmd_copy));
                if idx < old_group.len() {
                    assert(new_acc == acc.update(idx as int, (nm, g)));
                    assert(group@ == old_group.update(idx as int, e));
                } else {
                    assert(new_acc == acc.push((nm, g)));
                    assert(group@ == old_group.push(e));
                }
                assert(group@.len() == new_acc.len());
                assert forall|m: int| 0 <= m < group@.len() implies #[trigger] group@[m].0@ == new_acc[m].0
                    && (group@[m].1 matches CommandType::Command(c) && command_matches(c, new_acc[m].1)) by {
                    if m != idx {
                        assert(group@[m] == old_group[m]);
                        assert(new_acc[m] == acc[m]);
                        assert(old_group[m].0@ == acc[m].0);
                    } else {
                        assert(group@[m] == e);
                        assert(new_acc[m] == (nm, g));
                    }
                }
                assert(group_matches(group@, new_acc));
                acc = new_acc;
            }
        }
        j = j + 1;
    }
    assert(spec_ops.take(j as int) =~= spec_ops);
    Some(group)
}

/// The URL of the first server, or the empty text when there is none.
pub open spec fn api_url_of(spec: OpenApiModel) -> Seq<char> {
    if spec.servers@.len() > 0 {
        spec.servers@[0]@
    } else {
        Seq::empty()
    }
}

/// The environments of a generated config: `prod`, with `API_URL` set to
/// the given URL.
pub open spec fn generated_envs(api_url: Seq<char>) -> Map<Seq<char>, Map<Seq<char>, Seq<char>>> {
    Map::<Seq<char>, Map<Seq<char>, Seq<char>>>::empty().insert(
        "prod"@,
        Map::<Seq<char>, Seq<char>>::empty().insert("API_URL"@, api_url),
    )
}

/// A config for an OpenAPI description: the environment `prod` with
/// `API_URL` set to the first server's URL, and one command per operation,
/// grouped by section (see `groups_for`). `None` when the references of some
/// operation's body never end.
pub fn generate_config(spec: &OpenApiModel) -> (r: Option<Config>)
    ensures
        match groups_for(operations_of(spec.paths@), sections_in(operations_of(spec.paths@)), spec.components) {
            None => r is None,
            Some(g) => r matches Some(c) && groups_match(c.commands@, g) && c.envs.wf()
                && c.envs@ == generated_envs(api_url_of(*spec)),
        },
{
    let api_url = if spec.servers.len() > 0 { spec.servers[0].clone() } else { String::new() };
    let mut prod: Table<String> = Table::new();
    prod.insert(String::from_str("API_URL"), api_url);
    let mut envs: Table<Table<String>> = Table::new();
    envs.insert(String::from_str("prod"), prod);
    assert(envs@ =~= generated_envs(api_url_of(*spec)));
    assert(envs.wf());

    let ghost spec_ops = operations_of(spec.paths@);
    let ops = collect_operations(&spec.paths);
    let mut secs: Vec<String> = Vec::new();
    let mut j: usize = 0;
    while j < ops.len()
        invariant
            j <= ops@.len(),
            ops_match(ops@, spec_ops),
            secs@.len() == j,
            forall|m: int| 0 <= m < j ==> #[trigger] secs@[m]@ == section_of(spec_ops[m].0, spec_ops[m].1),
        decreases ops.len() - j,
    {
        assert(ops@[j as int].0@ == spec_ops[j as int].0);
        assert(*ops@[j as int].1 == spec_ops[j as int].1 && ops@[j as int].2 == spec_ops[j as int].2);
        secs.push(section_for(ops[j].0, ops[j].1));
        j = j + 1;
    }

    let mut sections: Vec<String> = Vec::new();
    let mut j: usize = 0;
    while j < secs.len()
        invariant
            j <= secs@.len(),
            secs@.len() == spec_ops.len(),
            forall|m: int| 0 <= m < secs@.len() ==> #[trigger] secs@[m]@ == section_of(spec_ops[m].0, spec_ops[m].1),
            string_views(sections@) == sections_in(spec_ops.take(j as int)),
        decreases secs.len() - j,
    {
        assert(spec_ops.take(j + 1).drop_last() =~= spec_ops.take(j as int));
        assert(spec_ops.take(j + 1).last() == spec_ops[j as int]);
        if !contains_string(&sections, &secs[j]) {
            let ghost before = string_views(sections@);
            sections.push(secs[j].clone());
            assert(string_views(sections@) =~= before.push(secs@[j as int]@));
        }
        j = j + 1;
    }
    assert(spec_ops.take(j as int) =~= spec_ops);
    let ghost spec_secs = sections_in(spec_ops);

    let mut commands: Vec<(String, CommandType)> = Vec::new();
    let ghost mut acc: Seq<(Seq<char>, Seq<(Seq<char>, GeneratedCommand)>)> = Seq::empty();
    let mut t: usize = 0;
    while t < sections.len()
        invariant
            t <= sections@.len(),
            spec_ops == operations_of(spec.paths@),
            spec_secs == sections_in(spec_ops),
            envs.wf(),
            envs@ == generated_envs(api_url_of(*spec)),
            string_views(sections@) == spec_secs,
            ops_match(ops@, spec_ops),
            secs@.len() == ops@.len(),
            forall|m: int| 0 <= m < secs@.len() ==> #[trigger] secs@[m]@ == section_of(spec_ops[m].0, spec_ops[m].1),
            groups_for(spec_ops, spec_secs.take(t as int), spec.components) == Some(acc),
            groups_match(commands@, acc),
        decreases sections.len() - t,
    {
        assert(spec_secs.take(t + 1).drop_last() =~= spec_secs.take(t as int));
        assert(spec_secs.take(t + 1).last() == sections@[t as int]@);
        let group = match section_group(&ops, &secs, &sections[t], &spec.components, Ghost(spec_ops)) {
            Some(g) => g,
            None => {
                proof {
                    assert(section_commands(spec_ops, spec_secs.take(t + 1).last(), spec.components) is None);
                    assert(groups_for(spec_ops, spec_secs.take(t + 1), spec.components) is None);
                    lemma_groups_none_stays(spec_ops, spec_secs, spec.components, t + 1);
                }
                return None;
            },
        };
        let ghost gg = section_commands(spec_ops, sections@[t as int]@, spec.components)->0;
        let key = to_kebab_case(sections[t].as_str());
        let idx = first_index_of_key(&commands, &key);
        proof {
            assert forall|m: int| 0 <= m < idx implies acc[m].0 != key@ by {
                assert(commands@[m].0@ == acc[m].0);
            }
            if idx < commands@.len() {
                assert(commands@[idx as int].0@ == acc[idx as int].0);
            }
            lemma_first_key_index(acc, key@, idx as int);
        }
        let ghost kv = key@;
        if idx < commands.len() {
            commands.set(idx, (key, CommandType::NestedCommand(group)));
        } else {
            commands.push((key, CommandType::NestedCommand(group)));
        }
        proof {
            let new_acc = assoc_insert(acc, kv, gg);
            assert forall|m: int| 0 <= m < commands@.len() implies #[trigger] commands@[m].0@ == new_acc[m].0
                && (commands@[m].1 matches CommandType::NestedCommand(n) && group_matches(n@, new_acc[m].1)) by {
                if m != idx {
                    assert(commands@[m].0@ == acc[m].0);
                }
            }
            acc = new_acc;
        }
        t = t + 1;
    }
    assert(spec_secs.take(t as int) =~= spec_secs);
    Some(Config { envs, commands })
}

} // verus!
