# yalive

A section-first Markdown knowledge vault with spaced repetition, in the terminal.
Markdown owns the knowledge; a disposable SQLite index serves search, the graph,
diagnostics and the review state.

`src/` is the library. What it computes is stated in `requires` and `ensures` and
proved with Verus.

| Module | What it decides |
| --- | --- |
| `parser`, `note`, `quiz` | headings, relations, actions, clips and cards of a note |
| `model` | the vault's data, and what a note may hold |
| `graph`, `communities`, `expand` | the typed graph of sections and what is read from it |
| `search` | the expression handed to the full-text index |
| `index`, `listing`, `archive` | the rows that a vault's index holds and lists |
| `reviews`, `stats` | the review queue, its limits, imports and figures |
| `sync`, `ignore` | the steps of a Git sync, and the files that stay out of it |
| `player`, `videos` | the command line that plays a clip, and the clips of a vault |
| `config` | the vault's settings |
| `app` | keys, commands, pages, the review session and every line that is drawn |
| `outside`, `text` | what is taken from other crates and from `std`, and texts |

`tests/` runs the library. `app/` is the program around it: arguments, files, SQLite,
Git, the terminal, YAML, TOML and JSON, and what is computed with floating point
(scheduling by FSRS, PageRank, retrieval scores, percentages).
