# maidata

Reading maidata chart files (the `&key=value` format of simai charts) and the helpers of
three chart exporters (notes as JSON lines, heatmap datasets, sensor frames), written in
Verus: the functions under `src/` carry contracts that Verus proves (the few calls into
std that Verus does not know stand behind small trusted wrappers).

- `src/` — the verified library:
  - `container`, `maidata_file`: the maidata lexer, level and offset syntax, and the file
    model with its per-difficulty fallbacks;
  - `parser`: modifier letters, buttons, slide segments and the list / delimiter readers,
    with warnings and errors collected in `diag::State`;
  - `insn`, `transform`, `text`: keys, sensors, difficulties, slide shapes, and text helpers;
  - `judge`: following a slide's judgement areas on the touch panel;
  - `heatmap`, `note_export`, `dataset`: sensor order, feature layout, sensor names,
    the note exporter's grouping and merge decisions (notes by start time, linked
    touches, notes covered by slides, how two overlapping slides merge), which charts it takes, its
    simultaneity check, and command-line handling of the exporters.
- `app/` — ordinary Rust around the library: file and network access, serde copies of
  library types, and the floating-point work (comparing times and pixel distances,
  averaging positions, frame occupancy and quantisation) that feeds the library's
  decisions.
- `tests/` — tests of the library.
