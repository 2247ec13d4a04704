# bench_compare

Parsing, comparing and tracking `cargo bench` results, verified with Verus.

- `src/` is the verified library: parsing libtest benchmark lines
  (`bench_parser`), pairing a baseline run with a current run by name and
  classifying each change (`bench_comparison`), picking out regressions
  (`regression_detector`), the history of runs (`bench_history`), markdown
  reports (`bench_report`), and the character-level text operations they share
  (`text`). Time measurements are a type parameter: the library never computes
  on their values, and takes what is computed from them as arguments.
- `app/` holds the `f64` side: percentage changes, speedups, trends, reading
  numbers and formatting them, and the JSON history file.
- `tests/` exercises the library with `f64` measurements.
