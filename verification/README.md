# jgl

A registry of jujutsu (jj) repositories, with a command that runs
`jj git fetch` in each of them.

- `src/` is the verified library:
  - `paths`: joining paths and comparing them component by component;
  - `config`: the registry, the expansion of `~`, and the rules for adding a
    repository (it must resolve, exist, hold a `.jj` directory, and not be
    registered already under any spelling of its path);
  - `commands::fetch`: the plan of fetches (the resolved directory of each
    repository, up to the first that cannot be resolved), the results built
    from the outcomes of the runs, the report lines and the verdict.
- `app/` is the program: the command line, the TOML configuration file, the
  environment, the filesystem probes, and the loop that runs `jj git fetch`
  once per planned directory and hands the outcomes back to the library.
- `tests/` exercises the library, and compares the path operations with
  those of `std::path`.
