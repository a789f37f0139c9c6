//! HTTP methods, responses, and the plan of a request: which headers go out
//! and in what form the body is sent.

use vstd::prelude::*;
use crate::json::{keys_ordered, law_object_insert_keeps_keys_ordered, lemma_ordered_entries_all, ordered_deep, numbers_valid, lemma_numbers_valid_entries_all, compact_json, obj_insert, object_insert, parse_json, parsed_json, pretty_json, to_compact_string, to_pretty_string, view_entries, view_value, lemma_view_entries, JsonValue, JsonView};
use crate::text::{lex_lt, string_of};
use crate::number::{is_digit, is_json_number_text, leading_digits};
use crate::table::{pair_views, Table};

verus! {

/// The HTTP methods that commands use.
#[derive(PartialEq, Eq, Structural)]
pub enum HttpMethod {
    GET,
    POST,
    PUT,
    DELETE,
    PATCH,
}

/// The name of a method, as it is written in configs.
pub open spec fn method_name(m: HttpMethod) -> Seq<char> {
    match m {
        HttpMethod::GET => "GET"@,
        HttpMethod::POST => "POST"@,
        HttpMethod::PUT => "PUT"@,
        HttpMethod::DELETE => "DELETE"@,
        HttpMethod::PATCH => "PATCH"@,
    }
}

impl HttpMethod {
    /// The name of the method (`GET`, `POST`, ...).
    pub fn as_string(&self) -> (s: String)
        ensures
            s@ == method_name(*self),
    {
        match self {
            HttpMethod::GET => String::from_str("GET"),
            HttpMethod::POST => String::from_str("POST"),
            HttpMethod::PUT => String::from_str("PUT"),
            HttpMethod::DELETE => String::from_str("DELETE"),
            HttpMethod::PATCH => String::from_str("PATCH"),
        }
    }

    /// A copy of the method.
    pub fn copy(&self) -> (m: HttpMethod)
        ensures
            m == *self,
    {
        match self {
            HttpMethod::GET => HttpMethod::GET,
            HttpMethod::POST => HttpMethod::POST,
            HttpMethod::PUT => HttpMethod::PUT,
            HttpMethod::DELETE => HttpMethod::DELETE,
            HttpMethod::PATCH => HttpMethod::PATCH,
        }
    }
}

/// A response as it is shown and stored: final URL, status code, headers
/// and body text.
pub struct Response {
    pub url: String,
    pub status: u16,
    pub headers: Table<String>,
    pub body: String,
}

/// How a request body is sent.
pub enum RequestBody {
    /// No body.
    Empty,
    /// A JSON body, given by its compact text.
    Json(String),
    /// A body sent as it is.
    Raw(String),
    /// A multipart form: files to upload (field, path) and text fields.
    Multipart { files: Vec<(String, String)>, texts: Vec<(String, String)> },
}

/// A request ready to be sent.
pub struct RequestPlan {
    pub url: String,
    pub method: HttpMethod,
    pub headers: Table<String>,
    pub body: RequestBody,
}

/// The text of a form field for a JSON value: a string as it is, any other
/// value as its compact JSON text.
pub open spec fn form_text(v: JsonView) -> Seq<char> {
    match v {
        JsonView::Str(s) => s,
        _ => compact_json(v),
    }
}

/// The text fields of a multipart form sent with files: one per entry of the
/// body when it is a JSON object, none otherwise.
pub open spec fn form_texts(body: Option<Seq<char>>) -> Seq<(Seq<char>, Seq<char>)> {
    match body {
        Some(b) => match parsed_json(b) {
            Some(JsonView::Object(es)) => es.map_values(|e: (Seq<char>, JsonView)| (e.0, form_text(e.1))),
            _ => Seq::empty(),
        },
        None => Seq::empty(),
    }
}

/// The headers sent: the given ones, with `User-Agent: hit-cli`; with files to
/// upload, without `Content-Type` (the form sets its own).
pub open spec fn planned_headers(headers: Map<Seq<char>, Seq<char>>, has_files: bool) -> Map<Seq<char>, Seq<char>> {
    let h = headers.insert("User-Agent"@, "hit-cli"@);
    if has_files {
        h.remove("Content-Type"@).remove("content-type"@)
    } else {
        h
    }
}

/// The headers sent keep every given header other than `User-Agent`,
/// `Content-Type` and `content-type` as it was; `User-Agent` is `hit-cli`;
/// `Content-Type` and `content-type` are dropped when there are files to
/// upload and kept as given otherwise.
pub proof fn law_planned_headers(headers: Map<Seq<char>, Seq<char>>, has_files: bool)
    ensures
        forall|k: Seq<char>| k != "User-Agent"@ && k != "Content-Type"@ && k != "content-type"@ ==> (
            (#[trigger] planned_headers(headers, has_files).contains_key(k) <==> headers.contains_key(k))
            && (headers.contains_key(k) ==> planned_headers(headers, has_files)[k] == headers[k])),
        planned_headers(headers, has_files).contains_key("User-Agent"@),
        planned_headers(headers, has_files)["User-Agent"@] == "hit-cli"@,
        has_files ==> !planned_headers(headers, has_files).contains_key("Content-Type"@)
            && !planned_headers(headers, has_files).contains_key("content-type"@),
        !has_files ==> (planned_headers(headers, has_files).contains_key("Content-Type"@) <==> headers.contains_key("Content-Type"@)),
        !has_files && headers.contains_key("Content-Type"@) ==> planned_headers(headers, has_files)["Content-Type"@] == headers["Content-Type"@],
        !has_files ==> (planned_headers(headers, has_files).contains_key("content-type"@) <==> headers.contains_key("content-type"@)),
        !has_files && headers.contains_key("content-type"@) ==> planned_headers(headers, has_files)["content-type"@] == headers["content-type"@],
{
    reveal_strlit("User-Agent");
    reveal_strlit("Content-Type");
    reveal_strlit("content-type");
    assert("User-Agent"@ != "Content-Type"@ && "User-Agent"@ != "content-type"@ && "Content-Type"@ != "content-type"@) by {
        assert("User-Agent"@[0] != "Content-Type"@[0]);
        assert("User-Agent"@[0] != "content-type"@[0]);
        assert("Content-Type"@[0] != "content-type"@[0]);
    }
}

/// The text of a form field for `v`.
fn form_text_of(v: &JsonValue) -> (s: String)
    ensures
        s@ == form_text(v@),
{
    match v {
        JsonValue::Str(s) => s.clone(),
        _ => to_compact_string(v),
    }
}

/// Plans a request: its headers and the form of its body.
/// - With files to upload, the body is a multipart form holding the files and
///   the entries of the body (when it is a JSON object) as text fields.
/// - Otherwise a body that is JSON is sent as JSON, any other body as it is.
pub fn plan_request(
    url: String,
    method: &HttpMethod,
    headers: &Table<String>,
    body: Option<String>,
    file_fields: Vec<(String, String)>,
) -> (p: RequestPlan)
    ensures
        p.url == url,
        p.method == *method,
        p.headers@ == planned_headers(headers@, file_fields@.len() > 0),
        headers.wf() ==> p.headers.wf(),
        file_fields@.len() > 0 ==> (p.body matches RequestBody::Multipart { files, texts }
            && files@ == file_fields@
            && pair_views(texts@) == form_texts(match body { Some(b) => Some(b@), None => None })),
        file_fields@.len() == 0 ==> match body {
            None => p.body is Empty,
            Some(b) => match parsed_json(b@) {
                Some(v) => p.body matches RequestBody::Json(t) && t@ == compact_json(v),
                None => p.body matches RequestBody::Raw(t) && t@ == b@,
            },
        },
{
    let mut owned = headers.copy();
    let ua = String::from_str("User-Agent");
    owned.insert(ua, String::from_str("hit-cli"));
    let has_files = file_fields.len() > 0;
    if has_files {
        owned.remove(&String::from_str("Content-Type"));
        owned.remove(&String::from_str("content-type"));
    }
    let planned_body = if has_files {
        let mut texts: Vec<(String, String)> = Vec::new();
        match &body {
            Some(b) => {
                match parse_json(b.as_str()) {
                    Some(JsonValue::Object(entries)) => {
                        proof {
                            lemma_view_entries(entries@);
                        }
                        let ghost es = view_entries(entries@);
                        let mut i: usize = 0;
                        while i < entries.len()
                            invariant
                                i <= entries@.len(),
                                es == view_entries(entries@),
                                es.len() == entries@.len(),
                                forall|j: int| 0 <= j < entries@.len() ==> #[trigger] es[j] == (entries@[j].0@, view_value(entries@[j].1)),
                                pair_views(texts@) == es.take(i as int).map_values(|e: (Seq<char>, JsonView)| (e.0, form_text(e.1))),
                            decreases entries.len() - i,
                        {
                            let ghost before = pair_views(texts@);
                            let t = form_text_of(&entries[i].1);
                            let k = entries[i].0.clone();
                            assert(es[i as int] == (k@, entries@[i as int].1@));
                            texts.push((k, t));
                            assert(pair_views(texts@) =~= before.push((es[i as int].0, form_text(es[i as int].1))));
                            assert(es.take(i + 1) =~= es.take(i as int).push(es[i as int]));
                            assert(pair_views(texts@) =~= es.take(i + 1).map_values(|e: (Seq<char>, JsonView)| (e.0, form_text(e.1))));
                            i = i + 1;
                        }
                        assert(es.take(i as int) =~= es);
                    },
                    _ => {
                        assert(pair_views(texts@) =~= Seq::<(Seq<char>, Seq<char>)>::empty());
                    },
                }
            },
            None => {
                assert(pair_views(texts@) =~= Seq::<(Seq<char>, Seq<char>)>::empty());
            },
        }
        RequestBody::Multipart { files: file_fields, texts }
    } else {
        match body {
            None => RequestBody::Empty,
            Some(b) => match parse_json(b.as_str()) {
                Some(v) => RequestBody::Json(to_compact_string(&v)),
                None => RequestBody::Raw(b),
            },
        }
    };
    proof {
        reveal_strlit("User-Agent");
        reveal_strlit("hit-cli");
        reveal_strlit("Content-Type");
        reveal_strlit("content-type");
    }
    RequestPlan { url, method: method.copy(), headers: owned, body: planned_body }
}

/// A decimal digit.
pub open spec fn digit_char(d: int) -> char {
    (48 + d) as char
}

/// The decimal text of a number.
pub open spec fn decimal_text(n: nat) -> Seq<char>
    decreases n,
{
    if n < 10 {
        seq![digit_char(n as int)]
    } else {
        decimal_text(n / 10).push(digit_char((n % 10) as int))
    }
}

/// Every character of the decimal text of a number is a digit, and the
/// first is not `0` unless the number is.
proof fn lemma_decimal_text_digits(n: nat)
    ensures
        forall|i: int| 0 <= i < decimal_text(n).len() ==> is_digit(#[trigger] decimal_text(n)[i]),
        decimal_text(n).len() >= 1,
        n >= 1 ==> decimal_text(n)[0] != '0',
    decreases n,
{
    if n >= 10 {
        lemma_decimal_text_digits(n / 10);
        let d = decimal_text(n / 10);
        assert forall|i: int| 0 <= i < decimal_text(n).len() implies is_digit(#[trigger] decimal_text(n)[i]) by {
            if i < d.len() {
                assert(decimal_text(n)[i] == d[i]);
            }
        }
        assert(decimal_text(n)[0] == d[0]);
    }
}

/// The decimal text of a number is the text of a JSON number.
proof fn lemma_decimal_text_is_json_number(n: nat)
    ensures
        is_json_number_text(decimal_text(n)),
{
    lemma_decimal_text_digits(n);
    let t = decimal_text(n);
    lemma_all_digits_leading(t);
    assert(t.skip(t.len() as int) =~= Seq::<char>::empty());
}

/// Every decimal numeral, with or without a leading `-`, is the text of a
/// JSON number.
pub proof fn law_decimal_numerals_are_json_numbers(n: nat)
    ensures
        is_json_number_text(decimal_text(n)),
        is_json_number_text(seq!['-'] + decimal_text(n)),
{
    lemma_decimal_text_is_json_number(n);
    lemma_decimal_text_digits(n);
    let d = decimal_text(n);
    let s = seq!['-'] + d;
    assert(is_digit(d[0]));
    assert(d[0] != '-');
    assert(s[0] == '-');
    assert(s.skip(1) =~= d);
}

/// A text of digits only is all leading digits.
proof fn lemma_all_digits_leading(t: Seq<char>)
    requires
        forall|i: int| 0 <= i < t.len() ==> is_digit(#[trigger] t[i]),
    ensures
        leading_digits(t) == t.len(),
    decreases t.len(),
{
    if t.len() > 0 {
        assert forall|i: int| 0 <= i < t.drop_first().len() implies is_digit(#[trigger] t.drop_first()[i]) by {
            assert(t.drop_first()[i] == t[i + 1]);
        }
        lemma_all_digits_leading(t.drop_first());
        assert(is_digit(t[0]));
    }
}

/// The decimal text of `n`.
pub fn decimal_string(n: u16) -> (s: String)
    ensures
        s@ == decimal_text(n as nat),
{
    let mut digits: Vec<char> = Vec::new();
    let mut m: u16 = n;
    // digits of m, most significant first, followed by `digits`
    while m >= 10
        invariant
            decimal_text(n as nat) == decimal_text(m as nat) + digits@,
        decreases m,
    {
        let d = m % 10;
        let c = ((48 + d) as u8) as char;
        let ghost before = digits@;
        digits.insert(0, c);
        assert(decimal_text(m as nat) == decimal_text((m / 10) as nat).push(digit_char((m % 10) as int)));
        assert(digits@ =~= seq![c] + before);
        assert(decimal_text(m as nat) + before =~= decimal_text((m / 10) as nat) + digits@);
        m = m / 10;
    }
    let c = ((48 + m) as u8) as char;
    let ghost before = digits@;
    digits.insert(0, c);
    assert(digits@ =~= seq![c] + before);
    assert(decimal_text(n as nat) =~= digits@);
    string_of(digits.as_slice())
}

/// The header entries inserted one after the other into an object kept in
/// key order.
pub open spec fn sorted_header_entries(es: Seq<(String, String)>) -> Seq<(Seq<char>, JsonView)>
    decreases es.len(),
{
    if es.len() == 0 {
        Seq::empty()
    } else {
        obj_insert(sorted_header_entries(es.drop_last()), es.last().0@, JsonView::Str(es.last().1@))
    }
}

/// The header entries inserted into an object kept in key order have their
/// keys in strictly increasing order, and string values.
proof fn lemma_sorted_headers_ordered(es: Seq<(String, String)>)
    ensures
        keys_ordered(sorted_header_entries(es)),
        forall|i: int| 0 <= i < sorted_header_entries(es).len() ==> (#[trigger] sorted_header_entries(es)[i]).1 is Str,
    decreases es.len(),
{
    if es.len() > 0 {
        let prev = sorted_header_entries(es.drop_last());
        lemma_sorted_headers_ordered(es.drop_last());
        let k = es.last().0@;
        let v = JsonView::Str(es.last().1@);
        law_object_insert_keeps_keys_ordered(prev, k, v);
        let r = sorted_header_entries(es);
        assert forall|i: int| 0 <= i < r.len() implies (#[trigger] r[i]).1 is Str by {
            assert(r.contains(r[i]));
            if r[i] != (k, v) {
                let j = choose|j: int| 0 <= j < prev.len() && prev[j] == r[i];
                assert(prev[j].1 is Str);
            }
        }
    }
}

/// The JSON value of a response as it is inspected: an object with keys in
/// order (`body`, `headers`, `status`, `url`), the body as the JSON it holds
/// when it is JSON and as a string otherwise.
pub open spec fn response_value(r: Response) -> JsonView {
    JsonView::Object(seq![
        ("body"@, match parsed_json(r.body@) {
            Some(v) => v,
            None => JsonView::Str(r.body@),
        }),
        ("headers"@, JsonView::Object(sorted_header_entries(r.headers.entries@))),
        ("status"@, JsonView::Number(decimal_text(r.status as nat))),
        ("url"@, JsonView::Str(r.url@)),
    ])
}

/// The headers as a JSON object kept in key order (see
/// `sorted_header_entries`).
fn header_object(headers: &Table<String>) -> (v: Vec<(String, JsonValue)>)
    ensures
        view_entries(v@) == sorted_header_entries(headers.entries@),
{
    let mut out: Vec<(String, JsonValue)> = Vec::new();
    let mut i: usize = 0;
    proof {
        lemma_view_entries(out@);
    }
    assert(view_entries(out@) =~= Seq::<(Seq<char>, JsonView)>::empty());
    while i < headers.entries.len()
        invariant
            i <= headers.entries@.len(),
            view_entries(out@) == sorted_header_entries(headers.entries@.take(i as int)),
        decreases headers.entries.len() - i,
    {
        assert(headers.entries@.take(i + 1).drop_last() =~= headers.entries@.take(i as int));
        let k = headers.entries[i].0.clone();
        let v = JsonValue::Str(headers.entries[i].1.clone());
        object_insert(&mut out, k, v);
        i = i + 1;
    }
    assert(headers.entries@.take(i as int) =~= headers.entries@);
    out
}

fn entry(k: &str, v: JsonValue) -> (e: (String, JsonValue))
    ensures
        e.0@ == k@,
        e.1 == v,
{
    (String::from_str(k), v)
}

impl Response {
    /// The JSON value of the response as it is inspected (see `response_value`).
    pub fn inspect_value(&self) -> (v: JsonValue)
        ensures
            v@ == response_value(*self),
            ordered_deep(v@),
            numbers_valid(v@),
    {
        let body = match parse_json(self.body.as_str()) {
            Some(b) => b,
            None => JsonValue::Str(self.body.clone()),
        };
        let ghost bv = body@;
        assert(bv == match parsed_json(self.body@) {
            Some(x) => x,
            None => JsonView::Str(self.body@),
        });
        let mut es: Vec<(String, JsonValue)> = Vec::new();
        es.push(entry("body", body));
        es.push(entry("headers", JsonValue::Object(header_object(&self.headers))));
        es.push(entry("status", JsonValue::Number(decimal_string(self.status))));
        es.push(entry("url", JsonValue::Str(self.url.clone())));
        proof {
            lemma_view_entries(es@);
            let target = seq![
                ("body"@, bv),
                ("headers"@, JsonView::Object(sorted_header_entries(self.headers.entries@))),
                ("status"@, JsonView::Number(decimal_text(self.status as nat))),
                ("url"@, JsonView::Str(self.url@)),
            ];
            assert(view_entries(es@) =~= target);
            assert(target == match response_value(*self) {
                JsonView::Object(t) => t,
                _ => target,
            });
            reveal_strlit("body");
            reveal_strlit("headers");
            reveal_strlit("status");
            reveal_strlit("url");
            assert(keys_ordered(target)) by {
                assert forall|i: int, j: int| 0 <= i < j < target.len() implies lex_lt(#[trigger] target[i].0, #[trigger] target[j].0) by {
                    assert(target[i].0[0] != target[j].0[0]);
                }
            }
            lemma_sorted_headers_ordered(self.headers.entries@);
            let hs = sorted_header_entries(self.headers.entries@);
            assert forall|i: int| 0 <= i < hs.len() implies ordered_deep(#[trigger] hs[i].1) by {
                assert(hs[i].1 is Str);
            }
            lemma_ordered_entries_all(hs);
            assert(ordered_deep(bv));
            assert forall|i: int| 0 <= i < target.len() implies ordered_deep(#[trigger] target[i].1) by {
                if i == 1 {
                    assert(target[1].1 == JsonView::Object(hs));
                }
            }
            lemma_ordered_entries_all(target);
            lemma_decimal_text_is_json_number(self.status as nat);
            assert(numbers_valid(bv));
            assert forall|i: int| 0 <= i < hs.len() implies numbers_valid(#[trigger] hs[i].1) by {
                assert(hs[i].1 is Str);
            }
            lemma_numbers_valid_entries_all(hs);
            assert forall|i: int| 0 <= i < target.len() implies numbers_valid(#[trigger] target[i].1) by {
                if i == 1 {
                    assert(target[1].1 == JsonView::Object(hs));
                }
            }
            lemma_numbers_valid_entries_all(target);
        }
        let v = JsonValue::Object(es);
        v
    }
}

} // verus!
