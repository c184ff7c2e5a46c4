# deptrace

Tracks and documents the dependencies of the targets (executables) of a
project: dependency declarations are read from a `deptrace.toml` file and from
plugins (a cargo plugin is included), resolved into a graph, and the shared
libraries each executable needs are related to the dependencies that provide
them.

## Layout

- `src/` — the library, verified with Verus:
  - `names.rs`: plain and plugin-qualified names (`plugin:name`), how they are
    read and written;
  - `config.rs`: the configuration model, counting declarations, merging
    configurations;
  - `project.rs`: resolving a configuration into a project, with cycle
    detection;
  - `dependency.rs`, `target.rs`: resolved dependencies and targets;
  - `plugin.rs`: the plugin traits and loading the suitable plugins;
  - `cargo.rs`: the cargo plugin's logic: reading its extra fields, following
    the messages of `cargo build`, generating the configuration;
  - `analysis.rs`: classifying the libraries an executable needs;
  - `cli.rs`: the command line options and the decisions `main` takes;
  - `seqs.rs`, `colors.rs`, `index_set.rs`, `warning_sink.rs`: helpers.
- `app/` — the command line tool: argument parsing, reading files, running
  `cargo` and `lddtree`, printing.
- `tests/` — tests of the library.
