use hit::cli::env_use::{init as env_use_init, EnvUseArguments};
use hit::cli::ephenv_set::{init as ephenv_set_init, EphenvSetArguments};
use hit::cli::last_view::json_pointer_for_path;
use hit::domain::app_config::AppConfig;
use hit::domain::command::Command;
use hit::domain::config::{find_command, get_config_file_path, CommandType, Config};
use hit::utils::http::HttpMethod;
use hit::domain::env::{get_env, list_envs, set_env};
use hit::domain::ephenv::{get_ephenvs, set_ephenv};
use hit::table::Table;
use hit::utils::error::CliError;
use hit::utils::input::CustomAutocomplete;

fn s(x: &str) -> String {
    x.to_string()
}

fn strings(xs: &[&str]) -> Vec<String> {
    xs.iter().map(|x| x.to_string()).collect()
}

#[test]
fn config_file_lives_in_hit_directory() {
    assert_eq!(get_config_file_path(), ".hit/config.json");
}

#[test]
fn env_read_after_write() {
    let mut app = AppConfig::new();
    assert_eq!(get_env(&app), None);
    set_env(&mut app, s("dev"));
    assert_eq!(get_env(&app), Some(s("dev")));
    set_env(&mut app, s("prod"));
    assert_eq!(get_env(&app), Some(s("prod")));
}

#[test]
fn env_use_init_sets_env_and_keeps_ephenvs() {
    let mut app = AppConfig::new();
    set_ephenv(&mut app, s("API_KEY"), s("secret"));
    let r = env_use_init(&mut app, EnvUseArguments { env: s("something") });
    assert!(r.is_ok());
    assert_eq!(get_env(&app), Some(s("something")));
    assert_eq!(get_ephenvs(&app).get(&s("API_KEY")), Some(&s("secret")));
}

#[test]
fn ephenv_read_after_write() {
    let mut app = AppConfig::new();
    assert_eq!(get_ephenvs(&app).len(), 0);
    set_ephenv(&mut app, s("API_TOKEN"), s("a"));
    set_ephenv(&mut app, s("OTHER"), s("b"));
    set_ephenv(&mut app, s("API_TOKEN"), s("c"));
    let e = get_ephenvs(&app);
    assert_eq!(e.get(&s("API_TOKEN")), Some(&s("c")));
    assert_eq!(e.get(&s("OTHER")), Some(&s("b")));
    assert_eq!(e.len(), 2);
    assert_eq!(get_env(&app), None);
}

#[test]
fn ephenv_set_init_stores_value() {
    let mut app = AppConfig::new();
    let r = ephenv_set_init(&mut app, EphenvSetArguments { key: s("API_KEY"), value: s("secret_value_abcd_123") });
    assert!(r.is_ok());
    assert_eq!(get_ephenvs(&app).get(&s("API_KEY")), Some(&s("secret_value_abcd_123")));
}

#[test]
fn list_envs_is_sorted() {
    let mut config = Config::empty();
    config.envs.insert(s("prod"), Table::new());
    config.envs.insert(s("dev"), Table::new());
    config.envs.insert(s("Staging"), Table::new());
    config.envs.insert(s("dev"), Table::new());
    assert_eq!(list_envs(&config), strings(&["Staging", "dev", "prod"]));
    assert!(list_envs(&Config::empty()).is_empty());
}

#[test]
fn table_insert_get_remove() {
    let mut t: Table<String> = Table::new();
    t.insert(s("a"), s("1"));
    t.insert(s("b"), s("2"));
    t.insert(s("a"), s("3"));
    assert_eq!(t.len(), 2);
    assert_eq!(t.get(&s("a")), Some(&s("3")));
    assert!(t.contains_key(&s("b")));
    t.remove(&s("a"));
    assert_eq!(t.get(&s("a")), None);
    assert_eq!(t.len(), 1);
    assert_eq!(t.find(&s("b")), Some(0));
}

#[test]
fn cli_error_message() {
    assert_eq!(CliError::new(s("env not set")).to_string(), "env not set");
}

#[test]
fn json_pointer_from_dotted_path() {
    assert_eq!(json_pointer_for_path("body.items.0.name"), "/body/items/0/name");
    assert_eq!(json_pointer_for_path("status"), "/status");
    assert_eq!(json_pointer_for_path(""), "/");
}

#[test]
fn suggestions_contain_input_ignoring_case() {
    let a = CustomAutocomplete::new(strings(&["body.Name", "body.id", "headers.x-name", "status"]));
    assert_eq!(a.get_suggestions("NAME"), strings(&["body.Name", "headers.x-name"]));
    assert_eq!(a.get_suggestions(""), strings(&["body.Name", "body.id", "headers.x-name", "status"]));
    assert!(a.get_suggestions("zzz").is_empty());
}

#[test]
fn completion_is_highlighted_or_common_prefix() {
    let a = CustomAutocomplete::new(strings(&["body.name", "body.nickname", "status"]));
    assert_eq!(a.get_completion("body", Some(s("status"))), Some(s("status")));
    assert_eq!(a.get_completion("body.n", None), Some(s("body.n")));
    assert_eq!(a.get_completion("nick", None), Some(s("body.nickname")));
    assert_eq!(a.get_completion("zzz", None), Some(s("")));
}

#[test]
fn completion_is_refused_inside_a_character() {
    let a = CustomAutocomplete::new(strings(&["é", "è"]));
    assert_eq!(a.get_completion("", None), None);
    let b = CustomAutocomplete::new(strings(&["éa", "éb"]));
    assert_eq!(b.get_completion("", None), Some(s("é")));
}

fn get_command(url: &str) -> Command {
    Command { method: HttpMethod::GET, url: s(url), body: None, postscript: None, headers: Table::new() }
}

#[test]
fn commands_are_found_by_path() {
    let commands = vec![
        (s("list-users"), CommandType::Command(get_command("https://your.api.com/users"))),
        (
            s("users"),
            CommandType::NestedCommand(vec![
                (s("list"), CommandType::Command(get_command("{{API_URL}}/users"))),
                (s("get"), CommandType::Command(get_command("{{API_URL}}/users/:userId"))),
            ]),
        ),
    ];
    assert_eq!(find_command(&commands, &strings(&["list-users"])).unwrap().url, "https://your.api.com/users");
    assert_eq!(find_command(&commands, &strings(&["users", "get"])).unwrap().url, "{{API_URL}}/users/:userId");
    assert!(find_command(&commands, &strings(&["users"])).is_none());
    assert!(find_command(&commands, &strings(&["list-users", "x"])).is_none());
    assert!(find_command(&commands, &strings(&["users", "delete"])).is_none());
    assert!(find_command(&commands, &strings(&[])).is_none());
}

#[test]
fn empty_input_keeps_every_suggestion() {
    let all = strings(&["body.Name", "ÉTAT", "", "status"]);
    let a = CustomAutocomplete::new(all.clone());
    assert_eq!(a.get_suggestions(""), all);
}
