# alors

A project-local task runner: tasks live in a `tasks.alors` file and run with
`alors <task>`. This crate is its core, written in Verus and proved against
its contracts.

- `src/` — the verified library:
  - `text` — character sequences, joining, ordering, decimal numbers;
  - `model` — tasks, dependencies, imports, and the namespace tree;
  - `parser` — the taskfile grammar, with line-numbered errors;
  - `loader` — the import merge, as a state machine that asks for one file at
    a time;
  - `validate` — the up-front checks (unknown dependencies, argument counts,
    dependency cycles);
  - `plan` — the run order of an invocation;
  - `resolver` — the words after `alors` mapped onto one task and its
    arguments;
  - `complete` — the zsh completion script and the candidates it asks for;
  - `cli` — the leading `--taskfile`, the mode of an invocation, the listing.
- `app/` — the program: argument handling, reading files, printing, and
  running task bodies in `sh`.
- `tests/` — tests of the library on concrete taskfiles.
