# project_hq

A personal "HQ" of plain-text projects, tasks and routines: Markdown project
files with YAML-like frontmatter grouped into tracks, a `todo.txt`-style task
list, recurring routines under `_routines/`, an undo history, a timeline of
changes, and an assistant whose proposed edits are checked before they apply.

The library is written in Verus. Every function in `src/` carries a contract
that Verus proves, and the properties the tool promises (which checklist
items are available, what a write reads back as, what undo restores, how
tasks and projects are ordered, that every check comes before any write) are
stated as proof functions next to the code they concern.

## Layout

- `src/` — the verified library.
  - `text`, `tokens`, `dates`: characters, words and dates as plain values.
  - `frontmatter`, `project_file`, `project`: reading and rewriting project files.
  - `action`: checklist items and which of them are available.
  - `mover`, `commands`, `naming`, `config`: moving, creating and naming projects.
  - `task`: the task list, its lines and its order.
  - `routine_time`, `routine`: recurring obligations and their moments.
  - `undo`, `timeline`, `report`, `api`, `agent`, `readback`: history, views,
    the assistant's changes, and read-back laws.
- `tests/` — tests over the public API.
- `app/` — the program around the library: command line, web server, file
  and process I/O, and the floating-point parts (priority numbers), which
  hand the library plain values.

Outside crates do the work they are named for (`chrono` for calendars and
time zones, `similar` for diffs, `unicode-normalization` for slugs); each
call goes through a small trusted wrapper whose contract says what the call
returns.
