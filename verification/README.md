# converter-core (verified)

Universal data optimiser: JSON or TOML in (the two formats of `InputFormat`), DixScript `.mdix` out, with automatic
`@ENUMS` and `@QUICKFUNCS` induction. The library is written in Verus: every
function carries a contract and is proved against it, except the small trusted
wrappers around `serde_json`, `toml` and a few `std` string functions, whose
contracts are assumed from those libraries' documentation and source.

Pipeline:

1. **ingestion** — `serde_json` / `toml` parse the text; the value is mapped onto
   a format-agnostic tree (`Node`).
2. **induction** — string values are counted per key to find enum candidates;
   arrays of records sharing one skeleton (sorted keys) become QuickFunc
   candidates. Both are kept only when the estimated saving reaches the threshold,
   and come ordered by saving.
3. **naming** — PascalCase enum names, singularised function names.
4. **emitter** — writes `@CONFIG`, `@ENUMS`, `@QUICKFUNCS` and `@DATA`, then formats
   the text (trailing whitespace trimmed, blank runs collapsed, ` = ` aligned in
   property blocks, one final newline).

Layout:

- `src/` — the library. `text.rs` holds the character-level helpers and their
  specifications; the `*laws.rs` files hold the properties proved of the whole
  pipeline (formatting is idempotent, emitted documents always carry their
  sections, candidates are ordered and qualify, conversion is deterministic).
- `tests/` — executable tests.
- `app/` — the wasm-bindgen bindings for the browser playground.
