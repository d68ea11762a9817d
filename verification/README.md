# kanjisearch

Looking up kanji by their components, verified with Verus.

- `src/` is the verified library: reading the IDS decompositions, the
  Unihan stroke counts and radical equivalences (`ids`, `parse`, `load`),
  the component graphs and their searches (`graph`, `server`, `search`),
  stroke counts (`strokes`), the pages (`pages`, `template`), query strings
  (`query`), summaries (`report`), and the laws that hold across them
  (`laws`, `reorder`).
- `app/main.rs` reads the data files, prints the start-up summary and
  serves the pages over HTTP with rouille; `--compare` lists the kanji of
  `likely.txt` missing from `kanjidic2kanji.txt`.
- `tests/` runs the library on small sample data.
