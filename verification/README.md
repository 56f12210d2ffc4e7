# yoyo

Control software for a model railway run by a Raspberry Pi: the static track layout,
its sensor graph, route planning for several trains, the automatic controller with
collision avoidance and station stops, and the command and prompt texts of the
operator console and the evolution sessions.

- `src/` — the library, verified with Verus: every public function states its result
  in its contract, and the laws of the layout, the planner and the controller are
  proved as public proof functions.
- `tests/` — tests of the library on the canonical layout.
- `app/` — the program around it: the REPL, the HTTP service (axum), requests to the
  Pi (curl), the files on disk, the agent sessions, and the timer loop of automatic mode.
- `extras/track_layout.toml` — the canonical layout in its TOML form.
