//! The project config: environments and the tree of commands.

use vstd::prelude::*;
use crate::domain::command::Command;
use crate::table::Table;
use crate::cli::run::concat;
use crate::domain::openapi::{find_named, lookup};
use crate::text::string_views;

verus! {

/// A command or a group of named sub-commands.
pub enum CommandType {
    Command(Command),
    NestedCommand(Vec<(String, CommandType)>),
}

/// The config: each environment maps variable names to values; commands are
/// named.
pub struct Config {
    pub envs: Table<Table<String>>,
    pub commands: Vec<(String, CommandType)>,
}

/// The directory, relative to the working directory, that holds the config.
pub open spec fn config_dir() -> Seq<char> {
    ".hit"@
}

/// The path of the config file: `config.json` inside the config directory.
pub fn get_config_file_path() -> (p: String)
    ensures
        p@ == config_dir() + "/config.json"@,
{
    let p = concat(".hit", "/config.json");
    proof {
        reveal_strlit(".hit");
    }
    p
}

impl Config {
    /// An empty config (no environments, no commands).
    pub fn empty() -> (c: Config)
        ensures
            c.envs.wf(),
            c.envs@ == Map::<Seq<char>, Map<Seq<char>, Seq<char>>>::empty(),
            c.commands@.len() == 0,
    {
        Config { envs: Table::new(), commands: Vec::new() }
    }
}

/// The command at a path of names: each name but the last picks a group of
/// sub-commands, the last one a command (the first entry of that name).
pub open spec fn command_at(entries: Seq<(String, CommandType)>, path: Seq<Seq<char>>) -> Option<Command>
    decreases path.len(),
{
    if path.len() == 0 {
        None
    } else {
        match lookup(entries, path[0]) {
            Some(CommandType::Command(c)) => if path.len() == 1 {
                Some(c)
            } else {
                None
            },
            Some(CommandType::NestedCommand(sub)) => command_at(sub@, path.drop_first()),
            None => None,
        }
    }
}

/// Lookup descends into groups: when the first name names a group, the
/// command at the whole path is the command at the rest of the path inside
/// that group, however long the rest is; when it names a command, the path of
/// that one name finds it and no longer path does.
pub proof fn law_command_lookup_descends(entries: Seq<(String, CommandType)>, path: Seq<Seq<char>>)
    requires
        path.len() >= 1,
    ensures
        lookup(entries, path[0]) matches Some(CommandType::NestedCommand(g))
            ==> command_at(entries, path) == command_at(g@, path.drop_first()),
        lookup(entries, path[0]) matches Some(CommandType::Command(c))
            ==> command_at(entries, path) == (if path.len() == 1 { Some(c) } else { None }),
        lookup(entries, path[0]) is None ==> command_at(entries, path) is None,
{
}

/// Whether `groups` is the chain of groups that `path` walks through from
/// `entries`: each name but the last names the next group in its group.
pub open spec fn group_chain(entries: Seq<(String, CommandType)>, path: Seq<Seq<char>>, groups: Seq<Seq<(String, CommandType)>>) -> bool {
    &&& groups.len() == path.len()
    &&& groups.len() > 0 ==> groups[0] == entries
    &&& forall|i: int| 0 <= i < path.len() - 1 ==> (#[trigger] lookup(groups[i], path[i]) matches Some(CommandType::NestedCommand(g))
        && g@ == groups[i + 1])
}

/// Commands nest to any depth: a path that walks through groups and whose
/// last name names a command in the last group finds that command.
pub proof fn law_nested_command_found(
    entries: Seq<(String, CommandType)>,
    path: Seq<Seq<char>>,
    groups: Seq<Seq<(String, CommandType)>>,
    c: Command,
)
    requires
        path.len() >= 1,
        group_chain(entries, path, groups),
        lookup(groups[path.len() - 1], path[path.len() - 1]) == Some(CommandType::Command(c)),
    ensures
        command_at(entries, path) == Some(c),
    decreases path.len(),
{
    if path.len() > 1 {
        assert(lookup(groups[0], path[0]) matches Some(CommandType::NestedCommand(g)) && g@ == groups[1]);
        let rest = path.drop_first();
        let gs = groups.drop_first();
        assert forall|i: int| 0 <= i < rest.len() - 1 implies (#[trigger] lookup(gs[i], rest[i]) matches Some(CommandType::NestedCommand(g))
            && g@ == gs[i + 1]) by {
            assert(lookup(groups[i + 1], path[i + 1]) matches Some(CommandType::NestedCommand(g)) && g@ == groups[i + 2]);
        }
        assert(gs[rest.len() - 1] == groups[path.len() - 1]);
        assert(rest[rest.len() - 1] == path[path.len() - 1]);
        law_nested_command_found(gs[0], rest, gs, c);
    }
}

/// The command at a path of names (see `command_at`).
pub fn find_command<'a>(commands: &'a Vec<(String, CommandType)>, path: &Vec<String>) -> (r: Option<&'a Command>)
    ensures
        match command_at(commands@, string_views(path@)) {
            Some(c) => r matches Some(x) && *x == c,
            None => r is None,
        },
{
    let ghost ps = string_views(path@);
    let mut current = commands;
    let mut i: usize = 0;
    if path.len() == 0 {
        return None;
    }
    assert(ps.skip(0) =~= ps);
    while i < path.len()
        invariant
            i < path@.len(),
            ps == string_views(path@),
            command_at(commands@, ps) == command_at(current@, ps.skip(i as int)),
        decreases path.len() - i,
    {
        let ghost rest = ps.skip(i as int);
        assert(rest[0] == path@[i as int]@);
        assert(rest.len() == path@.len() - i);
        match find_named(current, &path[i]) {
            None => {
                return None;
            },
            Some(CommandType::Command(c)) => {
                if i + 1 == path.len() {
                    return Some(c);
                } else {
                    return None;
                }
            },
            Some(CommandType::NestedCommand(sub)) => {
                assert(command_at(current@, rest) == command_at(sub@, rest.drop_first()));
                if i + 1 == path.len() {
                    assert(rest.drop_first().len() == 0);
                    return None;
                }
                assert(rest.drop_first() =~= ps.skip(i + 1));
                current = sub;
                i = i + 1;
            },
        }
    }
    None
}

} // verus!
