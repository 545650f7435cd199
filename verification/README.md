# Cellular Automata

A sandbox for Life-like cellular automata (any B/S rule on a bounded
4096 x 4096 world), with Golly-compatible RLE and rule text, pattern
collections per rule, and named starting layouts.

The library in `src/` is written in Verus and proved: its public functions
carry contracts over a mathematical model (sets of cells, sequences of
characters), and the helpers the proofs need carry their own. Besides the per-function contracts, `src/` proves
the library's laws, among them:

- reading back what `to_rle` writes gives the same rule and the same cells,
  moved to the origin (`roundtrip::lemma_rle_round_trip`), and every line
  after the header is at most 70 characters (`roundtrip::lemma_rle_lines_fit`);
- the text `to_rle` writes depends only on the pattern's shape, not on the
  order of the cells or where the pattern stands
  (`translation::lemma_to_rle_translation`);
- the rule spellings `B3/S23`, `S23/B3` and `23/3` read alike, whatever the
  letter case and surrounding spaces (`rules::lemma_rule_spellings`,
  `rules::lemma_rule_text_case_and_spaces`);
- nothing after the terminating `!` is read
  (`terminator::lemma_text_after_terminator_ignored`);
- a rule written out reads back as itself, B0 rules excepted
  (`rules::lemma_rule_text_round_trip`);
- no cell is ever born, painted or stamped past the edge of the world
  (`simulation::lemma_next_stays_in_world`, `board::Board`);
- the freehand line has no gaps (`line::line_cells`), and a Draw or Eraser
  stroke paints exactly the cells it passes with the value its first cell
  decided (`board::paint_step`);
- every built-in pattern's text reads and has live cells, and no built-in
  pattern is filed as imported (`patterns::lemma_library_shape`);
- the starting layouts are spread over the whole world, on a lattice
  that covers it from edge to edge (`starts::lattice`).

Layout:

```
src/
  text.rs        characters: white space, trimming, splitting, decimals
  rules.rs       RuleSet, rule text in both directions, presets
  cellset.rs     sorted cell vectors used as sets
  simulation.rs  one generation on the world; stamping
  board.rs       the board: painting, strokes, stamping, stepping, counts
  analysis.rs    behaviour classifier (still life, oscillator, ...)
  rle.rs         RLE reader and writer
  roundtrip.rs   what the reader makes of the writer's text
  translation.rs the writer's text depends only on the pattern's shape
  terminator.rs  the reader stops at `!`
  patterns/      pattern collections, one per rule
  plain_rle.rs   built-in pattern text always reads, with live cells
  starts.rs      starting layouts on a lattice
  controls.rs    importing pasted RLE; the Random button's area
  line.rs        Bresenham's line for freehand drawing
tests/           tests of the library
app/main.rs      the eframe window: controls, canvas, clipboard, files, randomness
```
