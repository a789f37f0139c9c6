use hit::cli::run::{
    build_body, build_url, check_upgrade_notice, merge_vars, render_headers, replace_params, replace_params_typed,
    resolve_vars, BodyFile, RunFailure,
};
use hit::domain::app_config::AppConfig;
use hit::domain::command::{Command, Postscript};
use hit::json::JsonValue;
use hit::table::Table;
use hit::utils::http::HttpMethod;

fn table(pairs: &[(&str, &str)]) -> Table<String> {
    Table { entries: pairs.iter().map(|(k, v)| (k.to_string(), v.to_string())).collect() }
}

fn types(pairs: &[(&str, Option<&str>)]) -> Table<Option<String>> {
    Table { entries: pairs.iter().map(|(k, v)| (k.to_string(), v.map(|t| t.to_string()))).collect() }
}

fn s(x: &str) -> String {
    x.to_string()
}

fn object(pairs: Vec<(&str, JsonValue)>) -> JsonValue {
    JsonValue::Object(pairs.into_iter().map(|(k, v)| (k.to_string(), v)).collect())
}

fn command_with_body(body: Option<JsonValue>) -> Command {
    Command {
        method: HttpMethod::POST,
        url: s("{{API_URL}}/endpoint"),
        body,
        postscript: None,
        headers: table(&[("Content-Type", "application/json")]),
    }
}

fn parse(text: &str) -> serde_json::Value {
    serde_json::from_str(text).unwrap()
}

#[test]
fn route_params_are_replaced() {
    let out = replace_params(s("https://your.api.com/users/:userId"), &table(&[("userId", "47")]));
    assert_eq!(out, "https://your.api.com/users/47");
    let out = replace_params(s("https://your.api.com/users?id=:userId"), &table(&[("userId", "47")]));
    assert_eq!(out, "https://your.api.com/users?id=47");
}

#[test]
fn replace_params_without_placeholders_is_identity() {
    let out = replace_params(s("https://x/users"), &table(&[("id", "1"), ("name", "n")]));
    assert_eq!(out, "https://x/users");
}

#[test]
fn typed_boolean_and_plain_params() {
    let body = "{\n  \"dryRun\": \":dryRun|boolean\",\n  \"name\": \":name\"\n}";
    let r = replace_params_typed(
        s(body),
        &table(&[("dryRun", "true"), ("name", "John")]),
        &types(&[("dryRun", Some("boolean")), ("name", None)]),
        &vec![],
    );
    let t = match r {
        Ok(t) => t,
        Err(e) => panic!("unexpected error {}", e.message),
    };
    assert_eq!(parse(&t.body), parse("{\"dryRun\": true, \"name\": \"John\"}"));
    assert!(t.file_fields.is_empty());
}

#[test]
fn typed_number_param() {
    let body = "{\n  \"limit\": \":limit|number\"\n}";
    let r = replace_params_typed(s(body), &table(&[("limit", "42")]), &types(&[("limit", Some("number"))]), &vec![]);
    match r {
        Ok(t) => assert_eq!(parse(&t.body), parse("{\"limit\": 42}")),
        Err(e) => panic!("unexpected error {}", e.message),
    }
}

#[test]
fn typed_boolean_validation_error() {
    let body = "{\"dryRun\": \":dryRun|boolean\"}";
    let r = replace_params_typed(s(body), &table(&[("dryRun", "notabool")]), &types(&[("dryRun", Some("boolean"))]), &vec![]);
    match r {
        Err(e) => assert_eq!(e.message, "Parameter 'dryRun' expects a boolean value (true/false), got 'notabool'"),
        Ok(_) => panic!("expected an error"),
    }
}

#[test]
fn typed_number_validation_error() {
    let body = "{\"limit\": \":limit|number\"}";
    let r = replace_params_typed(s(body), &table(&[("limit", "notanumber")]), &types(&[("limit", Some("number"))]), &vec![]);
    match r {
        Err(e) => assert_eq!(e.message, "Parameter 'limit' expects a number value, got 'notanumber'"),
        Ok(_) => panic!("expected an error"),
    }
}

#[test]
fn typed_file_param_leaves_the_body() {
    let body = "{\n  \"dryRun\": \":dryRun|boolean\",\n  \"file\": \":filePath|file\"\n}";
    let r = replace_params_typed(
        s(body),
        &table(&[("filePath", "/tmp/test.csv"), ("dryRun", "true")]),
        &types(&[("filePath", Some("file")), ("dryRun", Some("boolean"))]),
        &vec![s("/tmp/test.csv")],
    );
    match r {
        Ok(t) => {
            assert_eq!(t.body, "{\"dryRun\":\":dryRun|boolean\"}".replace("\":dryRun|boolean\"", "true"));
            assert_eq!(t.file_fields, vec![(s("file"), s("/tmp/test.csv"))]);
        },
        Err(e) => panic!("unexpected error {}", e.message),
    }
}

#[test]
fn typed_file_not_found_error() {
    let r = replace_params_typed(
        s("{\"file\": \":filePath|file\"}"),
        &table(&[("filePath", "/nonexistent/path.csv")]),
        &types(&[("filePath", Some("file"))]),
        &vec![],
    );
    match r {
        Err(e) => assert_eq!(e.message, "File not found for parameter 'filePath': /nonexistent/path.csv"),
        Ok(_) => panic!("expected an error"),
    }
}

#[test]
fn env_not_set_is_an_error() {
    match resolve_vars(&Table { entries: vec![] }, None, &table(&[])) {
        Err(e) => assert_eq!(e.message, "env not set"),
        Ok(_) => panic!("expected an error"),
    }
}

#[test]
fn env_not_recognized_is_an_error() {
    let envs = Table { entries: vec![(s("prod"), table(&[("API_URL", "https://prod.api.com")]))] };
    match resolve_vars(&envs, Some(s("something")), &table(&[])) {
        Err(e) => assert_eq!(e.message, "env not recognized"),
        Ok(_) => panic!("expected an error"),
    }
}

#[test]
fn ephemeral_vars_win_over_env_vars() {
    let envs = Table { entries: vec![(s("prod"), table(&[("API_URL", "https://prod.api.com"), ("KEY", "env")]))] };
    let vars = match resolve_vars(&envs, Some(s("prod")), &table(&[("KEY", "eph"), ("TOKEN", "t")])) {
        Ok(v) => v,
        Err(e) => panic!("unexpected error {}", e.message),
    };
    let merged = merge_vars(&table(&[("API_URL", "https://prod.api.com"), ("KEY", "env")]), &table(&[("KEY", "eph"), ("TOKEN", "t")]));
    assert_eq!(vars.get(&s("KEY")), Some(&s("eph")));
    assert_eq!(vars.get(&s("API_URL")), Some(&s("https://prod.api.com")));
    assert_eq!(vars.get(&s("TOKEN")), Some(&s("t")));
    assert_eq!(merged.entries, vars.entries);
}

#[test]
fn url_with_env_vars_and_route_params() {
    let data = table(&[("API_URL", "https://prod.api.com")]);
    match build_url(&s("{{API_URL}}/users/:userId"), &data, &table(&[("userId", "47")])) {
        Ok(u) => assert_eq!(u, "https://prod.api.com/users/47"),
        Err(_) => panic!("unexpected failure"),
    }
}

#[test]
fn url_without_env_vars_is_not_rendered() {
    let data = table(&[("API_URL", "https://prod.api.com")]);
    match build_url(&s("https://x/{{ not a var }}/:id"), &data, &table(&[("id", "1")])) {
        Ok(u) => assert_eq!(u, "https://x/{{ not a var }}/1"),
        Err(_) => panic!("unexpected failure"),
    }
}

#[test]
fn headers_are_rendered() {
    let data = table(&[("API_KEY", "secret"), ("API_URL", "https://prod.api.com")]);
    let headers = table(&[("X-Authorization-Key", "{{API_KEY}}"), ("Origin", "{{API_URL}}"), ("X-Request-Id", ":customRequestId")]);
    match render_headers(&headers, &data, &table(&[("customRequestId", "req-42")])) {
        Ok(h) => assert_eq!(
            h.entries,
            vec![
                (s("X-Authorization-Key"), s("secret")),
                (s("Origin"), s("https://prod.api.com")),
                (s("X-Request-Id"), s("req-42")),
            ]
        ),
        Err(_) => panic!("unexpected failure"),
    }
}

#[test]
fn broken_header_template_aborts() {
    let data = table(&[]);
    match render_headers(&table(&[("X", "{{#if}}")]), &data, &table(&[])) {
        Err(RunFailure::Abort(_)) => {},
        _ => panic!("expected an abort"),
    }
}

#[test]
fn body_from_config_is_rendered_and_typed() {
    let body = object(vec![
        ("dryRun", JsonValue::Str(s(":dryRun|boolean"))),
        ("name", JsonValue::Str(s(":name"))),
        ("url", JsonValue::Str(s("{{API_URL}}"))),
    ]);
    let cmd = command_with_body(Some(body));
    let data = table(&[("API_URL", "https://prod.api.com")]);
    let params = table(&[("dryRun", "true"), ("name", "John")]);
    match build_body(&cmd, &data, &params, None, &vec![]) {
        Ok(p) => {
            let text = p.body.unwrap();
            assert_eq!(parse(&text), parse("{\"dryRun\": true, \"name\": \"John\", \"url\": \"https://prod.api.com\"}"));
            assert!(p.file_fields.is_empty());
        },
        Err(_) => panic!("unexpected failure"),
    }
}

#[test]
fn body_file_replaces_config_body() {
    let cmd = command_with_body(Some(object(vec![("name", JsonValue::Str(s(":name")))])));
    let bf = BodyFile { path: s("body.json"), content: Ok(s("{\"custom\": \"payload\"}")) };
    match build_body(&cmd, &table(&[]), &table(&[]), Some(bf), &vec![]) {
        Ok(p) => assert_eq!(p.body, Some(s("{\"custom\": \"payload\"}"))),
        Err(_) => panic!("unexpected failure"),
    }
}

#[test]
fn body_file_not_found() {
    let cmd = command_with_body(None);
    let bf = BodyFile { path: s("/nonexistent/body.json"), content: Err(s("No such file or directory (os error 2)")) };
    match build_body(&cmd, &table(&[]), &table(&[]), Some(bf), &vec![]) {
        Err(RunFailure::Error(e)) => {
            assert!(e.message.contains("Failed to read body file"));
            assert_eq!(e.message, "Failed to read body file '/nonexistent/body.json': No such file or directory (os error 2)");
        },
        _ => panic!("expected an error"),
    }
}

#[test]
fn no_body_gives_no_body() {
    let cmd = command_with_body(None);
    match build_body(&cmd, &table(&[]), &table(&[]), None, &vec![]) {
        Ok(p) => assert!(p.body.is_none()),
        Err(_) => panic!("unexpected failure"),
    }
}

#[test]
fn upgrade_notice_depends_on_last_seen_version() {
    let mut a = AppConfig::new();
    assert!(check_upgrade_notice(&mut a, s("0.7.0")));
    assert_eq!(a.last_seen_version, Some(s("0.7.0")));
    assert!(!check_upgrade_notice(&mut a, s("0.8.0")));
    assert_eq!(a.last_seen_version, Some(s("0.7.0")));
    let mut b = AppConfig::new();
    b.last_seen_version = Some(s("0.5.3"));
    assert!(check_upgrade_notice(&mut b, s("0.7.0")));
}

#[test]
fn body_param_types_come_from_placeholders() {
    let body = object(vec![
        ("dryRun", JsonValue::Str(s(":dryRun|boolean"))),
        ("nested", JsonValue::Array(vec![JsonValue::Str(s(":limit|number")), JsonValue::Null])),
        ("name", JsonValue::Str(s(":name"))),
        ("fixed", JsonValue::Str(s("constant"))),
    ]);
    let cmd = Command {
        method: HttpMethod::POST,
        url: s("u"),
        body: Some(body),
        postscript: Some(Postscript { command: s("bash"), file: s("x.sh") }),
        headers: table(&[]),
    };
    let t = cmd.body_param_types();
    assert_eq!(t.get(&s("dryRun")), Some(&Some(s("boolean"))));
    assert_eq!(t.get(&s("limit")), Some(&Some(s("number"))));
    assert_eq!(t.get(&s("name")), Some(&None));
    assert_eq!(t.get(&s("fixed")), None);
}

#[test]
fn options_name_camel_case_params() {
    assert_eq!(hit::cli::run::param_name_for_option("user-id"), "userId");
    assert_eq!(hit::cli::run::param_name_for_option("dry-run"), "dryRun");
    assert_eq!(hit::cli::run::param_name_for_option("id"), "id");
    assert_eq!(hit::cli::run::param_name_for_option("custom-request-id"), "customRequestId");
}

#[test]
fn number_params_must_be_json_numbers() {
    for bad in ["NaN", "inf", "infinity", "+1", ".5", "1.", "01"] {
        let r = replace_params_typed(
            s("{\"limit\":\":limit|number\"}"),
            &table(&[("limit", bad)]),
            &types(&[("limit", Some("number"))]),
            &vec![],
        );
        match r {
            Err(e) => assert_eq!(e.message, format!("Parameter 'limit' expects a number value, got '{}'", bad)),
            Ok(_) => panic!("{} accepted as a number", bad),
        }
    }
    let r = replace_params_typed(
        s("{\"limit\":\":limit|number\"}"),
        &table(&[("limit", "-2.5e3")]),
        &types(&[("limit", Some("number"))]),
        &vec![],
    );
    assert_eq!(r.ok().unwrap().body, "{\"limit\":-2.5e3}");
}

#[test]
fn each_placeholder_gets_its_own_value() {
    let params = table(&[("id", "1"), ("idx", "2")]);
    assert_eq!(replace_params(s("/items/:id/:idx"), &params), "/items/1/2");
    let reversed = table(&[("idx", "2"), ("id", "1")]);
    assert_eq!(replace_params(s("/items/:id/:idx"), &reversed), "/items/1/2");
    assert_eq!(replace_params(s("/a/:id?x=:idy&y=:id_"), &params), "/a/1?x=:idy&y=:id_");
    let values = table(&[("a", ":b"), ("b", "B")]);
    assert_eq!(replace_params(s(":a/:b"), &values), ":b/B");
    assert_eq!(replace_params(s("http://host:8080/:id"), &params), "http://host:8080/1");
}

#[test]
fn typed_body_plain_params_are_whole_names() {
    let body = "{\"a\":\":id\",\"b\":\":idx\",\"c\":\":flag|boolean\"}";
    let r = replace_params_typed(
        s(body),
        &table(&[("id", "1"), ("flag", "true"), ("idx", "2")]),
        &types(&[("id", None), ("idx", None), ("flag", Some("boolean"))]),
        &vec![],
    );
    assert_eq!(r.ok().unwrap().body, "{\"a\":\"1\",\"b\":\"2\",\"c\":true}");
}

#[test]
fn values_are_inserted_without_html_escaping() {
    let data = table(&[("API_URL", "https://x"), ("API_KEY", "abc=&1<'\">")]);
    match build_url(&s("{{API_URL}}/q?key={{API_KEY}}"), &data, &table(&[])) {
        Ok(u) => assert_eq!(u, "https://x/q?key=abc=&1<'\">"),
        Err(_) => panic!("unexpected failure"),
    }
}

#[test]
fn unicode_parameter_names_are_filled() {
    let params = table(&[("prénom", "Zoé"), ("id", "7")]);
    assert_eq!(replace_params(s("/users/:prénom/:id"), &params), "/users/Zoé/7");
    assert_eq!(replace_params(s("/x/:idé"), &params), "/x/:idé");
}
