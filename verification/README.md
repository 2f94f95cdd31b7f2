# tsuki_optimize

Tabu-search optimizer for the two-layer "tsuki" kana keyboard layout
(3x10 and 3x11 boards).

- `src/` is the verified library:
  - `chars` — the character table, voiced-kana decomposition;
  - `layout` — boards, keys, key presses, layouts and their exchanges,
    pair constraints, the printed form of a layout;
  - `user_layout` — checking and converting a user-written layout;
  - `config` — board names and pair constraints of the configuration;
  - `corpus` — n-gram counting of a corpus;
  - `cost` — the discrete parts of the score (hand transitions, key pairs
    of a bigram, stroke counts);
  - `search` — tabu lists, candidate pairs, perturbation, the starting
    arrangement, move selection and the tenure/restart schedule.
- `app/` is the command-line program: file and terminal I/O, the TOML
  configuration, and the floating-point score and search loop built on the
  library.
- `tests/` exercises the library on concrete inputs.
