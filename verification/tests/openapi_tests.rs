use hit::domain::command::Command;
use hit::domain::config::{CommandType, Config};
use hit::domain::openapi::{
    command_name_for, create_command_for_operation, extract_schema, generate_config,
    process_path_and_query, process_schema, section_for, ComponentsModel, OpenApiModel, OperationModel,
    ParameterLocation, ParameterModel, PathItemModel, RefOr, RequestBodyModel, SchemaModel, SchemaType,
};
use hit::json::JsonValue;
use hit::utils::http::HttpMethod;

fn to_serde(v: &JsonValue) -> serde_json::Value {
    match v {
        JsonValue::Null => serde_json::Value::Null,
        JsonValue::Bool(b) => serde_json::Value::Bool(*b),
        JsonValue::Number(n) => serde_json::from_str(n).unwrap(),
        JsonValue::Str(t) => serde_json::Value::String(t.clone()),
        JsonValue::Array(items) => serde_json::Value::Array(items.iter().map(to_serde).collect()),
        JsonValue::Object(es) => serde_json::Value::Object(es.iter().map(|(k, x)| (k.clone(), to_serde(x))).collect()),
    }
}

fn to_compact_string(v: &JsonValue) -> String {
    serde_json::to_string(&to_serde(v)).unwrap()
}

fn s(x: &str) -> String {
    x.to_string()
}

fn op(tags: &[&str], id: Option<&str>, params: Vec<RefOr<ParameterModel>>, body: Option<RefOr<RequestBodyModel>>) -> OperationModel {
    OperationModel {
        tags: tags.iter().map(|t| t.to_string()).collect(),
        operation_id: id.map(|x| x.to_string()),
        parameters: params,
        request_body: body,
    }
}

fn param(location: ParameterLocation, name: &str) -> RefOr<ParameterModel> {
    RefOr::Item(ParameterModel { location, name: s(name) })
}

fn only_get(o: OperationModel) -> PathItemModel {
    PathItemModel { get: Some(o), post: None, put: None, delete: None, patch: None }
}

fn only_post(o: OperationModel) -> PathItemModel {
    PathItemModel { get: None, post: Some(o), put: None, delete: None, patch: None }
}

fn user_schema() -> SchemaModel {
    SchemaModel {
        kind: SchemaType::Object,
        properties: vec![
            (s("name"), RefOr::Item(SchemaType::String)),
            (s("age"), RefOr::Item(SchemaType::Integer)),
            (s("score"), RefOr::Item(SchemaType::Number)),
            (s("admin"), RefOr::Item(SchemaType::Boolean)),
            (s("tags"), RefOr::Item(SchemaType::Array)),
            (s("extra"), RefOr::Item(SchemaType::Object)),
            (s("other"), RefOr::Item(SchemaType::Other)),
            (s("meta"), RefOr::Reference(s("#/components/schemas/Meta"))),
        ],
    }
}

fn components() -> ComponentsModel {
    ComponentsModel {
        schemas: vec![(s("User"), RefOr::Item(user_schema()))],
        request_bodies: vec![(
            s("PetBody"),
            RefOr::Item(RequestBodyModel {
                content: vec![
                    (s("text/plain"), None),
                    (
                        s("application/json"),
                        Some(RefOr::Item(SchemaModel {
                            kind: SchemaType::Object,
                            properties: vec![(s("species"), RefOr::Item(SchemaType::String))],
                        })),
                    ),
                ],
            }),
        )],
    }
}

fn spec() -> OpenApiModel {
    OpenApiModel {
        servers: vec![s("https://api.example.com"), s("https://backup.example.com")],
        paths: vec![
            (
                s("/users/{userId}"),
                RefOr::Item(only_get(op(
                    &["Users"],
                    Some("getUserById"),
                    vec![param(ParameterLocation::Path, "userId"), param(ParameterLocation::Query, "verbose")],
                    None,
                ))),
            ),
            (
                s("/users"),
                RefOr::Item(only_post(op(
                    &["Users"],
                    Some("createUser"),
                    vec![],
                    Some(RefOr::Item(RequestBodyModel {
                        content: vec![(s("application/json"), Some(RefOr::Reference(s("#/components/schemas/User"))))],
                    })),
                ))),
            ),
            (s("/health/"), RefOr::Item(only_get(op(&[], None, vec![], None)))),
            (
                s("/pets"),
                RefOr::Item(only_post(op(
                    &["Pet Store"],
                    Some("addPet"),
                    vec![],
                    Some(RefOr::Reference(s("#/components/requestBodies/PetBody"))),
                ))),
            ),
            (s("/skipped"), RefOr::Reference(s("#/paths/other"))),
        ],
        components: Some(components()),
    }
}

fn group<'a>(config: &'a Config, name: &str) -> &'a Vec<(String, CommandType)> {
    for (k, c) in config.commands.iter() {
        if k == name {
            if let CommandType::NestedCommand(g) = c {
                return g;
            }
        }
    }
    panic!("no group {}", name);
}

fn command<'a>(g: &'a Vec<(String, CommandType)>, name: &str) -> &'a Command {
    for (k, c) in g.iter() {
        if k == name {
            if let CommandType::Command(cmd) = c {
                return cmd;
            }
        }
    }
    panic!("no command {}", name);
}

#[test]
fn generated_config_has_prod_env_with_first_server() {
    let config = generate_config(&spec()).unwrap();
    assert_eq!(config.envs.len(), 1);
    let prod = config.envs.get(&s("prod")).unwrap();
    assert_eq!(prod.get(&s("API_URL")), Some(&s("https://api.example.com")));
    let mut no_servers = spec();
    no_servers.servers = vec![];
    let config = generate_config(&no_servers).unwrap();
    assert_eq!(config.envs.get(&s("prod")).unwrap().get(&s("API_URL")), Some(&s("")));
}

#[test]
fn generated_commands_are_grouped_by_tag() {
    let config = generate_config(&spec()).unwrap();
    let names: Vec<&str> = config.commands.iter().map(|(k, _)| k.as_str()).collect();
    assert_eq!(names, vec!["users", "health", "pet-store"]);

    let users = group(&config, "users");
    assert_eq!(users.len(), 2);
    let get = command(users, "get-user-by-id");
    assert_eq!(get.method.as_string(), "GET");
    assert_eq!(get.url, "{{API_URL}}/users/:userId?verbose=:verbose");
    assert!(get.body.is_none());
    assert!(get.postscript.is_none());
    assert_eq!(get.headers.len(), 0);

    let create = command(users, "create-user");
    assert_eq!(create.method.as_string(), "POST");
    assert_eq!(create.url, "{{API_URL}}/users");
    assert_eq!(
        to_compact_string(create.body.as_ref().unwrap()),
        "{\"admin\":false,\"age\":0,\"extra\":{},\"meta\":{},\"name\":\"\",\"other\":null,\"score\":0,\"tags\":[]}"
    );

    let health = command(group(&config, "health"), "health");
    assert_eq!(health.method.as_string(), "GET");
    assert_eq!(health.url, "{{API_URL}}/health/");

    let pet = command(group(&config, "pet-store"), "add-pet");
    assert_eq!(pet.method.as_string(), "POST");
    assert_eq!(to_compact_string(pet.body.as_ref().unwrap()), "{\"species\":\"\"}");
}

#[test]
fn cyclic_references_give_no_config() {
    let mut cyclic = spec();
    cyclic.components = Some(ComponentsModel {
        schemas: vec![
            (s("User"), RefOr::Reference(s("#/components/schemas/Other"))),
            (s("Other"), RefOr::Reference(s("#/components/schemas/User"))),
        ],
        request_bodies: vec![],
    });
    assert!(generate_config(&cyclic).is_none());
}

#[test]
fn methods_come_from_the_operation_slot() {
    let login = op(&[], Some("login"), vec![], None);
    let mut spec = spec();
    spec.paths = vec![
        (s("/login"), RefOr::Item(only_post(login))),
        (
            s("/items/{id}"),
            RefOr::Item(PathItemModel {
                get: None,
                post: None,
                put: Some(op(&["items"], Some("getItem"), vec![], None)),
                delete: Some(op(&["items"], Some("removeItem"), vec![], None)),
                patch: Some(op(&["items"], Some("createItem"), vec![], None)),
            }),
        ),
    ];
    let config = generate_config(&spec).unwrap();
    assert_eq!(command(group(&config, "login"), "login").method.as_string(), "POST");
    let items = group(&config, "items");
    assert_eq!(command(items, "get-item").method.as_string(), "PUT");
    assert_eq!(command(items, "remove-item").method.as_string(), "DELETE");
    assert_eq!(command(items, "create-item").method.as_string(), "PATCH");
}

#[test]
fn route_and_query_from_parameters() {
    let params = vec![
        param(ParameterLocation::Path, "org"),
        param(ParameterLocation::Query, "page"),
        param(ParameterLocation::Header, "X-Id"),
        param(ParameterLocation::Path, "repo"),
        RefOr::Reference(s("#/components/parameters/limit")),
        param(ParameterLocation::Query, "sort"),
    ];
    assert_eq!(process_path_and_query(&s("/orgs/{org}/repos/{repo}"), &params), "/orgs/:org/repos/:repo?page=:page&sort=:sort");
    assert_eq!(process_path_and_query(&s("/plain"), &vec![]), "/plain");
}

#[test]
fn sections_and_command_names() {
    let tagged = op(&["Users", "Admin"], Some("users/listAll"), vec![], None);
    assert_eq!(section_for(&s("/x"), &tagged), "Users");
    assert_eq!(command_name_for(&s("/x"), &tagged, &s("users")), "list-all");
    assert_eq!(command_name_for(&s("/x"), &tagged, &s("Users")), "users-list-all");
    let untagged = op(&[], None, vec![], None);
    assert_eq!(section_for(&s("//items/{id}"), &untagged), "items");
    assert_eq!(section_for(&s("/"), &untagged), "default");
    assert_eq!(command_name_for(&s("/items/{id}/"), &untagged, &s("items")), "items-{id}");
}

#[test]
fn schema_defaults() {
    let v = process_schema(&SchemaModel { kind: SchemaType::String, properties: vec![] }).unwrap();
    assert_eq!(to_compact_string(&v), "{}");
    let c = components();
    let missing = extract_schema(&Some(RefOr::Reference(s("#/components/schemas/Nope"))), &c).unwrap();
    assert_eq!(to_compact_string(&missing.unwrap()), "{}");
    let bad_ref = extract_schema(&Some(RefOr::Reference(s("#/definitions/User"))), &c).unwrap();
    assert!(bad_ref.is_none());
    assert!(extract_schema(&None, &c).unwrap().is_none());
}

#[test]
fn command_without_components_has_no_body() {
    let o = op(&[], Some("createUser"), vec![], Some(RefOr::Reference(s("#/components/requestBodies/PetBody"))));
    let cmd = create_command_for_operation(&s("/users"), &o, HttpMethod::POST, &None).unwrap();
    assert!(cmd.body.is_none());
    assert_eq!(cmd.method.as_string(), "POST");
    let cmd = create_command_for_operation(&s("/pets"), &o, HttpMethod::POST, &Some(components())).unwrap();
    assert_eq!(to_compact_string(cmd.body.as_ref().unwrap()), "{\"species\":\"\"}");
}

#[test]
fn body_without_json_content_gives_no_body() {
    let body = RequestBodyModel {
        content: vec![(s("text/plain"), Some(RefOr::Reference(s("#/components/schemas/User"))))],
    };
    let o = op(&[], Some("upload"), vec![], Some(RefOr::Item(body)));
    let cmd = create_command_for_operation(&s("/up"), &o, HttpMethod::PUT, &Some(components())).unwrap();
    assert!(cmd.body.is_none());
    assert_eq!(cmd.method.as_string(), "PUT");
}
