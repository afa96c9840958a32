# Spec-driven sudoku generation, verified

A sudoku generator that produces puzzles forcing a chosen solving technique,
written in Verus: the library's functions carry `requires`/`ensures` contracts
that Verus proves, over a mathematical model of grids, candidates and
completions.

## Layout

- `src/` — the verified library.
  - `bits`, `layout`: bit and band arithmetic (row-major and column-major
    27-bit bands).
  - `grid`: the cell-major board with its candidate masks, parsing, units and
    peers; the pigeonhole fact that a full conflict-free grid holds every digit
    in every unit.
  - `bb`: the banded bitboard — incremental clue placement and removal, the
    technique steps, the baseline walks, the existence prober and the toolbox
    experiment.
  - `kinds`, `spec`: the technique taxonomy and the train/drill specs.
  - `cli`, `text`, `harvest`: force tokens, spec labels, and the harvest
    fixture format with its proved write/read round trip.
  - `fill`, `rng`, `fingerprint`: the random full-grid filler, the seeded
    generator, and the FNV fingerprint.
  - `generator`, `generate`, `ua`: the strip state, the strip attempts with the
    unavoidable-set pre-filter, and the diagnostic walks. Every set the
    pre-filter or the two-digit enumeration builds from a full grid is proved
    unavoidable (swapping its two digits gives another full grid) and of an
    even size of at least four, so a gate the pre-filter catches is proved
    non-unique and the prober would revert it too; on a full grid the sets are
    pairwise different, and the rectangle tier registers every deadly
    rectangle.
  - `probe`: the probers and the naked/hidden single techniques (with the
    proof that their placements agree with every completion). The scalar
    prober's count is proved exact up to its cap, and the scalar stripper is
    proved to leave a minimal unique puzzle of a full grid.
  - `pelanek`, `grade`: the human-model run and the grading helpers.
  - `clock`: clock readings for the timing walk.
- `tests/`: the test suite.
- `app/`: environment, dataset and floating-point code around the library.
