# cellgrid_formulas

Spreadsheet building blocks, verified with Verus: A1-style cell addresses
(both directions), a sparse grid of raw cell text loaded from CSV, a formula
tokenizer, and a precedence-climbing formula parser.

- `src/` is the verified library. Each public function states what it returns
  over a mathematical model (`Seq<char>` for text, `Map<CellRef, Seq<char>>`
  for a grid, spec enums for tokens and expressions), and the laws that tie
  functions together are proof functions (`lemma_a1_round_trip`,
  `lemma_a1_canonical`, `lemma_a1_case_insensitive`, `lemma_range_cells`,
  `lemma_csv_grid_cells`, `lemma_set_then_get`, `lemma_set_survives_later_sets`,
  `lemma_quoted_csv_round_trip`, `lemma_plain_csv`,
  `lemma_parse_rejects_extra_token`).
- `app/` holds what the library cannot: reading a grid from a file, stdin or
  any `Read`, and evaluating formulas, whose arithmetic is floating point.
  Formula numbers are kept as their text in the library and turned into `f64`
  there.
- `tests/` exercises the library on concrete values.
