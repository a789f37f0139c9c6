# hit

`hit` is a command-line API client: the API calls of a project are described
in `.hit/config.json` and run as commands (`hit run users get --user-id 47`).

The crate is written in Verus. `src/` is the verified library:

- `text`, `number`, `table`, `json`: text utilities, the grammar of JSON
  numbers, a string-keyed table with its map model, and a model of JSON
  values (read and written by `serde_json`);
- `template`: environment variables in templates (`{{NAME}}`);
- `cli::params`, `cli::run`: route, header and body parameters (`:name`,
  `:name|boolean`, `:name|number`, `:name|file`), environment resolution,
  the upgrade notice;
- `cli::last_view`: the paths offered in copy mode and the value copied;
- `domain`: settings, config, environments, ephemeral variables, commands, and
  the generation of a config from an OpenAPI description;
- `utils`: errors, HTTP request planning and responses, path completion.

`app/` is the command line around it: argument handling, files, the network,
the terminal and the clipboard. `tests/` holds the tests of the library.
