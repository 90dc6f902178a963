# grift (verified reader)

The reader of a small Kernel-style Lisp whose values live in a
fixed-capacity arena, written in Verus.

- `src/types.rs` — `ArenaIndex` (a slot number, with the well-known
  singleton slots) and `ArenaError`.
- `src/value.rs` — the `Value` stored in each slot and the S-expression a
  slot stands for (`decode`, `chain_chars`).
- `src/lisp.rs` — the `Lisp` arena: append-only slots, pre-allocated
  singletons (each the only slot of its kind), the reserved environment
  and root slots, symbols interned on the list whose head the intern cell
  (slot 9) holds, strings that end in NIL, and the constructors the reader
  uses (pairs, character chains, symbols, atom classification).
- `src/source.rs` — the `CharSource` trait and its two sources:
  `SliceSource` over text and `ChainSource` over a string already in the
  arena; both track the 1-based line and column of what they have read
  (saturating at `u32::MAX`), and successive reads deliver the text in
  order, then `None`.
- `src/parse.rs` — the grammar as spec functions over the characters left
  to read, and the recursive-descent reader proved to follow it, including
  how many slots a read may take; laws on the grammar (text after a datum,
  list elements read as they read alone, quotation).

`tests/` runs the reader on concrete inputs.
