//! The active environment.

use vstd::prelude::*;
use crate::domain::app_config::AppConfig;
use crate::domain::config::Config;
use crate::table::keys_of;
use crate::text::{lex_lt, sort_strings, sorted_strictly, string_views};

verus! {

/// The name of the active environment, if one is set.
pub open spec fn env_name(app: &AppConfig) -> Option<Seq<char>> {
    match app.current_env {
        Some(e) => Some(e@),
        None => None,
    }
}

/// The name of the active environment, if one is set.
pub fn get_env(app_config: &AppConfig) -> (r: Option<String>)
    ensures
        match r {
            Some(e) => env_name(app_config) == Some(e@),
            None => env_name(app_config) is None,
        },
{
    match &app_config.current_env {
        Some(e) => Some(e.clone()),
        None => None,
    }
}

/// The settings with `env` as the active environment.
pub open spec fn with_env(app: AppConfig, env: String) -> AppConfig {
    AppConfig { current_env: Some(env), ..app }
}

/// Makes `env` the active environment; the other settings stay as they were.
pub fn set_env(app_config: &mut AppConfig, env: String)
    ensures
        *final(app_config) == with_env(*old(app_config), env),
{
    app_config.current_env = Some(env);
}

/// Reading the active environment after setting it gives the name that was
/// set, and setting it leaves the ephemeral variables, the last response and
/// the last version seen as they were.
pub proof fn law_env_read_after_write(app: AppConfig, env: String)
    ensures
        env_name(&with_env(app, env)) == Some(env@),
        with_env(app, env).ephenvs == app.ephenvs,
        with_env(app, env).prev_request == app.prev_request,
        with_env(app, env).last_seen_version == app.last_seen_version,
{
}

/// The names of the environments of the config, sorted.
pub fn list_envs(config: &Config) -> (r: Vec<String>)
    requires
        config.envs.wf(),
    ensures
        sorted_strictly(string_views(r@)),
        r@.len() == config.envs.entries@.len(),
        forall|k: Seq<char>| #![auto] string_views(r@).contains(k) <==> config.envs@.contains_key(k),
{
    let mut names: Vec<String> = Vec::new();
    let mut i: usize = 0;
    while i < config.envs.entries.len()
        invariant
            i <= config.envs.entries@.len(),
            string_views(names@) == keys_of(config.envs.entries@).take(i as int),
        decreases config.envs.entries.len() - i,
    {
        let ghost before = string_views(names@);
        let name = config.envs.entries[i].0.clone();
        assert(name@ == config.envs.entries@[i as int].0@);
        names.push(name);
        assert(string_views(names@) =~= before.push(config.envs.entries@[i as int].0@));
        assert(keys_of(config.envs.entries@).take(i + 1) =~= keys_of(config.envs.entries@).take(i as int).push(config.envs.entries@[i as int].0@));
        i = i + 1;
    }
    assert(keys_of(config.envs.entries@).take(i as int) =~= keys_of(config.envs.entries@));
    let r = sort_strings(names);
    proof {
        assert forall|k: Seq<char>| #![auto] string_views(r@).contains(k) <==> config.envs@.contains_key(k) by {
            crate::table::lemma_entries_map_dom(config.envs.entries@, k);
            if config.envs@.contains_key(k) {
                let j = choose|j: int| 0 <= j < config.envs.entries@.len() && config.envs.entries@[j].0@ == k;
                assert(keys_of(config.envs.entries@)[j] == k);
            }
            if keys_of(config.envs.entries@).contains(k) {
                let j = choose|j: int| 0 <= j < keys_of(config.envs.entries@).len() && keys_of(config.envs.entries@)[j] == k;
                assert(config.envs.entries@[j].0@ == k);
            }
        }
    }
    r
}

} // verus!
