# nameless_locksmith

A solver and history manager for the tumbler-lock minigame of Gothic Remake, written
in Verus: the library's behaviour is stated in `requires`/`ensures` contracts and
proved.

A lock has N tumblers (2..8), each plate on a 1..7 track; it is open when every plate
sits on 4. Pressing [D] on a tumbler moves its own plate -1 plus the plates its rule
names (`r` = -1, `l` = +1); [A] is the inverse.

## Layout

- `src/model.rs` — the mathematical model: states, clicks, wall safety, grouped key
  sequences.
- `src/rules.rs` — rule texts to delta rows and the delta matrix; a single click.
- `src/solver.rs` — breadth-first search for the shortest wall-safe sequence; of the
  shortest ones it returns the first in click order ((1, D), (1, A), (2, D), ...).
- `src/history.rs` — reading the history file and `solve` input blocks.
- `src/render.rs` — writing solutions, history sections and input blocks; removing and
  replacing a lock in the history text.
- `src/walk.rs`, `src/catalog.rs`, `src/browse.rs` — stepping through a solution,
  UI string catalogs, finding locks by name or position.
- `src/screens.rs` — what the terminal screens decide and show: the keys of the
  language, browse, solve and step screens, the lock list, the plate rows and the
  result pane, as plain values.
- `src/text.rs` — character-sequence primitives.
- `src/laws.rs` — properties that relate several functions: a written lock reads
  back, removing or replacing a lock leaves the others, replacing again changes
  nothing, the solver is never beaten and its answer is unique, clicks commute.
  `src/readback.rs`, `src/input_facts.rs`, `src/history_facts.rs` and
  `src/text_facts.rs` hold the lemmas behind them.
- `app/main.rs` — the `locks` command line: file and terminal I/O around the library.
  With no arguments it opens the terminal UI, `app/tui.rs` (ratatui + crossterm), which
  reads keys, draws, and reads and writes the history file.
- `tests/` — tests of the library on concrete values.
