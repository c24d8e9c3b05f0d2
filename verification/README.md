# dtk_pal

Readers for the `splits.txt` and `symbols.txt` files of a decompilation
project, with their contracts proved by Verus.

- `src/util/` — character classes and scanning (`parser`), numbers in decimal
  or `0x` hexadecimal (`parsing`), and a view of the input text that hands out
  zero-copy slices by character position (`text`).
- `src/splits/` — the `splits.txt` data model, its reader (`parser`) and the
  layout it reads (`layout`), with the proof that every value the layout can
  write is read back unchanged, and the shapes of the lines that are read.
- `src/symbols/` — symbol kinds, scopes, data kinds and attributes, the
  `symbols.txt` reader and its layout, with the same read-back proof and the
  rule by which later attributes override earlier ones. A symbol's scopes
  are held in `ObjSymbolFlags`, a set with a proved view: `enumset`'s
  element trait is an `unsafe` trait that only its derive implements.
- `src/config.rs` — where a project keeps these files, from its
  configuration directory.
- `app/` — the command-line program: file reading, YAML and JSON, and error
  reports.
