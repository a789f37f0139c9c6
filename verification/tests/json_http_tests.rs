use hit::json::{object_insert, JsonValue};
use hit::table::Table;
use hit::utils::http::{decimal_string, plan_request, HttpMethod, RequestBody, Response};

fn s(x: &str) -> String {
    x.to_string()
}

fn table(pairs: &[(&str, &str)]) -> Table<String> {
    Table { entries: pairs.iter().map(|(k, v)| (k.to_string(), v.to_string())).collect() }
}

fn to_serde(v: &JsonValue) -> serde_json::Value {
    match v {
        JsonValue::Null => serde_json::Value::Null,
        JsonValue::Bool(b) => serde_json::Value::Bool(*b),
        JsonValue::Number(n) => serde_json::from_str(n).unwrap(),
        JsonValue::Str(t) => serde_json::Value::String(t.clone()),
        JsonValue::Array(items) => serde_json::Value::Array(items.iter().map(to_serde).collect()),
        JsonValue::Object(es) => {
            let mut m = serde_json::Map::new();
            for (k, x) in es {
                m.insert(k.clone(), to_serde(x));
            }
            serde_json::Value::Object(m)
        }
    }
}

fn to_compact_string(v: &JsonValue) -> String {
    serde_json::to_string(&to_serde(v)).unwrap()
}

#[test]
fn object_insert_keeps_keys_in_order() {
    let mut es: Vec<(String, JsonValue)> = vec![];
    object_insert(&mut es, s("m"), JsonValue::Number(s("1")));
    object_insert(&mut es, s("a"), JsonValue::Number(s("2")));
    object_insert(&mut es, s("z"), JsonValue::Number(s("3")));
    object_insert(&mut es, s("m"), JsonValue::Number(s("4")));
    let keys: Vec<&str> = es.iter().map(|(k, _)| k.as_str()).collect();
    assert_eq!(keys, vec!["a", "m", "z"]);
    assert_eq!(to_compact_string(&es[1].1), "4");
}

#[test]
fn decimal_string_of_status_codes() {
    for n in [0u16, 7, 10, 200, 404, 65535] {
        assert_eq!(decimal_string(n), n.to_string());
    }
}

#[test]
fn plan_adds_user_agent_and_sends_json() {
    let headers = table(&[("Content-Type", "application/json")]);
    let p = plan_request(s("https://x/e"), &HttpMethod::POST, &headers, Some(s("{ \"b\": 1, \"a\": [true] }")), vec![]);
    assert_eq!(p.url, "https://x/e");
    assert!(p.method == HttpMethod::POST);
    assert_eq!(p.headers.get(&s("User-Agent")), Some(&s("hit-cli")));
    assert_eq!(p.headers.get(&s("Content-Type")), Some(&s("application/json")));
    match p.body {
        RequestBody::Json(t) => assert_eq!(t, "{\"a\":[true],\"b\":1}"),
        _ => panic!("expected a JSON body"),
    }
}

#[test]
fn plan_sends_non_json_body_raw() {
    let p = plan_request(s("https://x"), &HttpMethod::PUT, &table(&[]), Some(s("plain text")), vec![]);
    match p.body {
        RequestBody::Raw(t) => assert_eq!(t, "plain text"),
        _ => panic!("expected a raw body"),
    }
    let p = plan_request(s("https://x"), &HttpMethod::GET, &table(&[]), None, vec![]);
    assert!(matches!(p.body, RequestBody::Empty));
}

#[test]
fn plan_with_files_makes_multipart_form() {
    let headers = table(&[("Content-Type", "application/json"), ("content-type", "x"), ("X-Key", "k")]);
    let body = "{\"description\":\"Monthly report\",\"count\":3,\"tags\":[\"a\"]}";
    let p = plan_request(
        s("https://x/upload"),
        &HttpMethod::POST,
        &headers,
        Some(s(body)),
        vec![(s("document"), s("./report.pdf"))],
    );
    assert_eq!(p.headers.get(&s("Content-Type")), None);
    assert_eq!(p.headers.get(&s("content-type")), None);
    assert_eq!(p.headers.get(&s("X-Key")), Some(&s("k")));
    assert_eq!(p.headers.get(&s("User-Agent")), Some(&s("hit-cli")));
    match p.body {
        RequestBody::Multipart { files, texts } => {
            assert_eq!(files, vec![(s("document"), s("./report.pdf"))]);
            assert_eq!(
                texts,
                vec![(s("count"), s("3")), (s("description"), s("Monthly report")), (s("tags"), s("[\"a\"]"))]
            );
        }
        _ => panic!("expected a multipart body"),
    }
}

#[test]
fn multipart_without_json_object_body_has_no_texts() {
    let p = plan_request(s("https://x"), &HttpMethod::POST, &table(&[]), Some(s("[1]")), vec![(s("f"), s("p"))]);
    match p.body {
        RequestBody::Multipart { texts, .. } => assert!(texts.is_empty()),
        _ => panic!("expected a multipart body"),
    }
}

fn response() -> Response {
    Response {
        url: s("https://x/users"),
        status: 201,
        headers: table(&[("x-b", "2"), ("content-type", "application/json")]),
        body: s("{\"id\":7}"),
    }
}

#[test]
fn inspected_response_parses_json_body() {
    let v = response().inspect_value();
    assert_eq!(
        to_compact_string(&v),
        "{\"body\":{\"id\":7},\"headers\":{\"content-type\":\"application/json\",\"x-b\":\"2\"},\"status\":201,\"url\":\"https://x/users\"}"
    );
    let mut plain = response();
    plain.body = s("not json");
    let v = plain.inspect_value();
    match v {
        JsonValue::Object(es) => {
            assert_eq!(es[0].0, "body");
            assert_eq!(to_compact_string(&es[0].1), "\"not json\"");
        }
        _ => panic!("expected an object"),
    }
}

#[test]
fn method_names() {
    assert_eq!(HttpMethod::GET.as_string(), "GET");
    assert_eq!(HttpMethod::PATCH.as_string(), "PATCH");
    assert!(HttpMethod::DELETE.copy() == HttpMethod::DELETE);
}

#[test]
fn copy_mode_paths_are_the_flattened_keys() {
    let mut r = response();
    r.body = s("{\"items\":[{\"name\":\"a\"},{\"name\":\"b\"}],\"empty\":{},\"none\":[],\"n\":null}");
    let paths = hit::cli::last_view::copy_mode_paths(&r).unwrap();
    assert_eq!(
        paths,
        vec![
            s("body.items.0.name"),
            s("body.items.1.name"),
            s("body.n"),
            s("headers.content-type"),
            s("headers.x-b"),
            s("status"),
            s("url"),
        ]
    );
    let flat = flatten_json_object::Flattener::new().flatten(&to_serde(&r.inspect_value())).unwrap();
    let expected: Vec<String> = flat.as_object().unwrap().keys().cloned().collect();
    assert_eq!(paths, expected);
}

#[test]
fn copy_mode_paths_fail_on_clashing_keys() {
    let mut r = response();
    r.body = s("{\"a\":{\"b\":1},\"a.b\":2}");
    assert!(hit::cli::last_view::copy_mode_paths(&r).is_none());
}

#[test]
fn copied_text_follows_the_dotted_path() {
    let mut r = response();
    r.body = s("{\"items\":[{\"name\":\"a\",\"tags\":[1,2]}],\"a/b\":true,\"m~n\":\"x\"}");
    let copy = |p: &str| hit::cli::last_view::copied_text(&r, p);
    assert_eq!(copy("body.items.0.name"), Some(s("\"a\"")));
    assert_eq!(copy("body.items.0.tags"), Some(s("[1,2]")));
    assert_eq!(copy("body.items.0"), Some(s("{\"name\":\"a\",\"tags\":[1,2]}")));
    assert_eq!(copy("status"), Some(s("201")));
    assert_eq!(copy("body.a~1b"), Some(s("true")));
    assert_eq!(copy("body.m~0n"), Some(s("\"x\"")));
    assert_eq!(copy("body.items.01"), None);
    assert_eq!(copy("body.items.1"), None);
    assert_eq!(copy("body.missing"), None);
    assert_eq!(copy("status.x"), None);
    let v = to_serde(&r.inspect_value());
    for p in ["body.items.0.name", "body.items.0.tags", "body.a~1b", "url"] {
        let pointer = hit::cli::last_view::json_pointer_for_path(p);
        assert_eq!(copy(p), v.pointer(&pointer).map(|x| x.to_string()));
    }
}

#[test]
fn numbers_in_the_response_body_are_leaves() {
    let mut r = response();
    r.body = s("{\"n\":1.5e3,\"m\":[0,-2]}");
    let paths = hit::cli::last_view::copy_mode_paths(&r).unwrap();
    assert!(paths.contains(&s("body.n")));
    assert!(paths.contains(&s("body.m.1")));
    assert_eq!(hit::cli::last_view::copied_text(&r, "body.m.1"), Some(s("-2")));
    assert_eq!(hit::cli::last_view::copied_text(&r, "body.n.0"), None);
}
