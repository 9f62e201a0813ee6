# ablations

Ablation baselines for a Plücker-line solver of ARC grid tasks, as a
verified Verus library (`src/`) with a thin command-line program around it
(`app/`).

## Layout

- `src/task.rs`: grids, training pairs and tasks; the colours a task uses,
  the adjacent cell pairs of a grid, colour indices.
- `src/ranking.rs`: enumeration of candidate outputs (mixed-radix digits),
  candidate counts, the correct candidate, rank bookkeeping and sample seeds.
- `src/histograms.rs`: every possible colour histogram of a candidate, a
  candidate's own histogram and its place in that list, and when
  histogram-aware scoring applies.
- `src/baselines.rs`: the counting baselines — per-cell mode prediction (M7),
  adjacent colour-transition counts (M6), one-hot transition matches (M5).
- `src/cli.rs`: seed and method arguments.
- `src/stats.rs`: counts, distinct values, modes and columns of grids.
- `src/random.rs`: seeded choices through `rand` and `rand_chacha`.
- `app/`: argument handling, task files, and everything that scores in
  floating point (embeddings, Plücker lines, SVD, score tables, ranking by
  score).
- `tests/`: tests of the library.

Every function in `src/` carries a contract that Verus proves; the few calls
into `rand` and `rand_chacha` stand behind small wrappers whose contracts
say what those crates' sources show.
