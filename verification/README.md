# icfpc2023

Tools of team Unagi for the ICFP Programming Contest 2023, with the integer
and text logic verified by Verus.

- `src/` — the verified library:
  - `mcf`: minimum-cost circulation by cost scaling (push/relabel, refine,
    exact potentials), and the assignment problems built on it;
  - `heap`: the priority queue used for exact potentials;
  - `scorer`: incremental bookkeeping of blocked lines and the score of a
    placement under adding, removing and swapping musicians;
  - `api`, `sql`, `secret`, `paths`, `problem`, `version`: submissions and
    scoreboards, typed access to database rows, decryption of embedded
    secrets, problem numbers in paths, musicians grouped by instrument, and
    the rules version of a problem;
  - `minmax`, `candidate_positions`, `candidate_tree`: small helpers.
- `app/` — everything that reads or writes (files, the database, the contest
  server, images) and the floating-point geometry and scoring, which call
  into the library for the integer parts.
- `tests/` — tests of the library.
