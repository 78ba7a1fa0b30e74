# ra_ide_api

Editor support for Rust sources, verified with Verus: the state of the
analysed files, growing a selection to the next syntactic unit, the
"split import" assist, and approximate name resolution.

## Layout

- `src/text.rs`: text ranges and UTF-8 byte offsets over texts of chars.
- `src/syntax_kind.rs`: the kinds of tokens and nodes.
- `src/tree.rs`: syntax trees held in an arena, their model (`TreeModel`),
  queries on them and a builder that proves every tree it finishes
  well-formed.
- `src/extend_selection.rs`: growing a selection.
- `src/split_import.rs`: the split-import assist.
- `src/resolve.rs`: what the name under the cursor asks the symbol index or
  the module map for.
- `src/world.rs`: the files of the world, changed file by file, and
  snapshots of them.
- `app/lib.rs`: glue that reaches parsing, the symbol index and the module
  map through a trait and calls the library.
- `tests/`: the tests.

Every function in `src/` is verified against its contract, with one
exception: the wrapper `is_alphanumeric` in `src/extend_selection.rs` calls
`char::is_alphanumeric` and is trusted; its contract only names the result.
The contracts are stated over the models (`TreeModel`, `Map<u32, String>`
for the files) and the spec functions beside them.
