# tsr

The logic of a lightweight, polyglot, repo-aware task runner, written in Rust and
proved with Verus.

- `src/` is the library. It reads `tasks.toml`, parses `run` strings, finds and
  orders packages, merges environments, keeps paths inside the workspace, plans
  what runs and decides what each result means. It also holds the state of the
  config editor and what its screens show. Every function states what it returns,
  and the laws that hold across functions (`law_*`) are proved next to the
  functions they are about.
- `app/` is the program around it: arguments, the file system, git, processes,
  threads and the terminal. It asks the world what the library needs to know and
  does what the library decides.
- `tests/` runs the library on concrete values, whole runs among them, over files
  and programs that live in memory.

What is taken on trust are calls into `toml_edit`, `serde_json`, `glob` and
`String::push`. Each stands behind one small function with a contract that says
what is claimed of it.
