# hoshi2star

The core of a CAT editor for fan translation of RPG Maker and Wolf RPG
games, written in Verus: the file formats, decryptors, extractors,
injectors and text rules, each with a contract proved by the verifier.

## Layout

- `src/detector.rs` — which engine made a game directory; Wolf RPG generation.
- `src/json.rs` — JSON trees, JSON Pointer (RFC 6901) resolution and writes,
  key orders; the lemmas behind the extract/inject round trips.
- `src/mv_mz/` — RPG Maker MV/MZ: asset decryption, JSON extraction and injection.
- `src/vx_ace/` — RPG Maker VX Ace: `.rvdata2` Marshal streams read and written with marshal-rs, extraction and injection.
- `src/wolf/` — Wolf RPG: archive decryption (DX v5/v6/v8), text codecs,
  database (`.dat`) parsing and injection, map (`.mps`) injection, the v3.5
  LZ4 formats (maps, common events) with their read-back laws, the
  database write/read-back laws (`dat_laws.rs`), segment extraction and
  text filters.
- `src/game_title.rs` — a game's title from `Game.ini`, `System.json` or
  `System.rvdata2`.
- `src/glossary.rs` — which glossary terms go with a batch of segments.
- `src/qa.rs`, `src/report.rs` — QA checks (byte-order mark, placeholders,
  line widths, glossary, score) and the standalone HTML QA report.
- `src/filter.rs`, `src/tm.rs`, `src/export.rs`,
  `src/project.rs`, `src/manifest.rs` — the shared text rules, translation
  memory keys and edit distance, font-size codes, file classification and
  the project manifest.
- `tests/` — tests run against the compiled library.
- `app/` — a command-line front end: file I/O, the `serde_json` and
  `wolfrpg-map-parser` bridges.
