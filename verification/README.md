# lusty

The logic of a file picker: fuzzy ranking of labels and listings, the line
protocol of its backend, and the state, keys and frames of its terminal UI.

- `src/` is the library. Every public function states what it computes, and
  Verus proves it.
  - `rank`, `frecency`, `order`, `score`: filtering and ranking of listings
  - `fuzzy`: ranking of plain labels, keyboard layouts, corpus dumps
  - `protocol`, `serve`, `session`: requests, replies and the state of the backend
  - `tui`: the interactive picker
  - `text`, `number`, `bytes`, `listing`, `parallel`: what these build on
- `app/` puts the library on a terminal and on stdin/stdout. Listing
  directories, scoring, metadata and previews come from a `Host`.
- `tests/` runs the library on concrete values.

Scores are held by the bits of a binary64 number; the scoring function is the
caller's.
