# morfeusz

Morphological analysis and generation for Polish, written in Verus: every
function of the library carries a `requires`/`ensures` contract that Verus
proves against its body.

## Layout

- `src/engine.rs` — the engine: splitting text into whitespace runs, word
  runs and single characters, looking tokens up, numbers and roman numerals,
  the in-word graph of dictionary substrings, whitespace kept, glued or
  dropped, and node numbering.
- `src/morfeusz.rs` — the classic front end: usage (analyse, generate or
  both), continuous or separate numbering, segmentation options.
- `src/dictionary.rs`, `src/tsv.rs` — text dictionaries and their loader.
- `src/binary/` — the binary dictionary format: prologue and sections
  (`data.rs`), the three automaton encodings (`fsa.rs`), interpretation
  records (`interps.rs`), lemma and case decoding (`case.rs`), segmentation
  rules (`segmentation.rs`), the inflexion graph (`graph.rs`), the word
  template cache (`cache.rs`), and the analyzer and generator built on them.
- `src/repository.rs` — finding a dictionary by name in search directories.
- `app/` — the file-reading loaders around the library.
- `tests/` — the test suite.

The contracts are stated over spec functions on plain values (`Seq`, `Map`,
`int`): for instance `plain_analysis` says what the analysis of a text is
for a dictionary that lists no forms, `substring_readings` and
`all_entries_read` what the in-word graph holds, `whole_word_readings` what a
binary dictionary without segmentation rules gives for a word, and
`dictionary_sections_ok` when a binary dictionary file loads.

The only trusted items are thin wrappers over `std` (character casing and
classification, `String` pushes, UTF-8 decoding, `Arc::clone`,
`Path::exists`), each with a doc comment that says what it claims.
