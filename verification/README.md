# osp_core

The core of a Swiss / MacMahon tournament manager, written in Verus: the
data model of players, rounds and settings, the scoring and standings, the
results-table import, and the pairing engine with its explanations and
counterfactual probes. Every function in `src/` carries a `requires` /
`ensures` contract that Verus proves.

## Layout

- `src/units.rs`, `src/ids.rs`, `src/tables.rs`, `src/text.rs` — identifiers,
  half-point arithmetic, and the thin trusted wrappers over `uuid`,
  `typed_index_collections` and std's case mapping.
- `src/player.rs`, `src/round.rs`, `src/settings.rs`, `src/team.rs` — the data
  model: grades, boards and outcomes, sit-outs, settings and their
  normalisation, team ratings and board order.
- `src/scoring.rs`, `src/standings.rs` — points replayed from the rounds, the
  tiebreak columns and the ranking.
- `src/team_round.rs` — checking a team round's draft, and the forfeits and
  sit-outs a confirmed team round records.
- `src/result_import.rs` — checking and planning the replay of an imported
  cross-table.
- `src/pairing/` — the rules and their lexicographic cost ladder (`rules`),
  the per-round model (`model`), the matching instance and its read-back
  (`matching`), the per-board ledger (`explain`) and the force/forbid probes
  (`counterfactual`).
- `src/sim.rs` — the integer side of the simulation harness.
- `app/` — ordinary Rust around the library: the serde and error-type copies,
  the floating-point simulation helpers, and the glue that hands a verified
  matching instance to an external minimum-weight perfect-matching solver.
- `tests/` — the test suite, run against the compiled library.
