# skills

A manager for agent skill packages: it caches skill repositories (git or
local directories), installs their skills into global or per-project
targets by symlink or copy, keeps an install registry with tags and a
two-level auto-update policy, and bookmarks favorite skills. It has a CLI,
a terminal UI and a local web page.

## Layout

- `src/` — the library, written in Verus and verified: source expression
  parsing, targets and the on-disk layout, the keyed tables of the registry,
  the update planner and its bookkeeping, favorites, the `SKILL.md`
  frontmatter parser and the ordering of scanned skills, the copy manifest
  check, the editing of `config.toml` by dotted keys, the decisions the commands take between their file and git steps (the
  update run as a step machine that scans every copy before it fetches or
  copies, the install loops' conflict handling, what to list, remove or
  update, whether a written `config.toml` may stand), and the TUI state
  machine. Each
  public function carries a contract over mathematical models (`Seq`,
  `int`, views of the data types); the `law_*` proof functions state the
  properties that hold across calls (the two-level update policy, Tab and
  toggle cycles, read-after-write of the keyed tables and of `config set`, and others).
- `app/` — the program around it: argument parsing, JSON and TOML files,
  git over gitoxide, file-system work (staging, renames, symlinks), the
  terminal and the web server; it performs what the library's step
  functions ask for and hands back what happened.
- `tests/` — tests of the library on concrete values.
