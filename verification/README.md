# timed_stats

Incremental storage of timed player statistics.  A snapshot of every
player's stats is stored either as a full snapshot or as a diff point: the
difference to the point before it.  Diff points form chains over a full
snapshot; a new snapshot is recorded on top of the prefix of the chain that
ends at the latest diff point with the least loss, trading the size of the
new difference against the cost of restoring the chain.

Layout:

- `src/` — the verified library (Verus).
  - `uuid.rs`: player UUID strings and the integer keys they are stored under.
  - `statistics.rs`, `snapshot.rs`, `player_map.rs`: stats, snapshots, and
    differences between snapshots, with the laws that tie them together.
  - `diff_points.rs`: diff points, diff sequences and their tips, the
    indexed set of diff points, and what recording a snapshot writes.
  - `heuristics.rs`: the loss factors of the candidate base sequences and
    the thresholds around them.
  - `repository.rs`: search decisions, link walking, and turning stored
    rows and upstream replies into snapshots.
  - `cycle_free_path.rs`, `debugging_utils.rs`, `config.rs`.
- `tests/` — tests of the library on concrete values.
- `app/` — the code around the library: settings from the environment, the
  MySQL tables, the floating-point loss ranking, and ingestion.
