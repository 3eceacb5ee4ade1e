# rush

A small interactive shell whose decisions are made by a verified library.

- `src/` — the library, verified with Verus:
  - `parser`: splitting a command line into words (quotes, escapes, `>`/`>>`)
    and finding the output redirection;
  - `expand`: `$NAME` and `${NAME}` expansion against shell and environment
    variables;
  - `shell`: the shell's state (history, variables, completion scripts,
    background jobs) and what each command does, as a list of effects;
  - `evaluator`: the smaller six-builtin evaluator;
  - `effects`: the effects and the builtins' output routing, `cd` paths;
  - `history`: history files and listings;
  - `completer`: tab-completion decisions;
  - `store`, `text`, `builtins`: shared data and character-level helpers.
    `store::StringMap` maps strings to strings as a list of entries: vstd
    specifies `HashMap` only for key types that satisfy its key model, which
    `String` is not shown to satisfy (and may not be assumed to), so a
    `HashMap<String, String>` would leave every map operation unproved;
  - `laws`: properties proved for all inputs.
- `app/` — the program: the `rustyline` prompt, files, processes and the
  environment, carrying out the effects the library returns.
- `tests/` — tests of the library on concrete inputs.
