# nexora

The world runtime of a voxel sandbox and the byte-level half of its texture
forge, as a Verus library: every function in `src/` carries a contract that
Verus proves.

## Layout

- `src/spatial.rs`, `src/time.rs`, `src/ident.rs`, `src/hashing.rs`,
  `src/error.rs` — coordinates and shapes, the world clock and calendar,
  namespaced identifiers, FNV-1a and CRC-32, and recovery advice.
- `src/voxel.rs`, `src/chunk.rs`, `src/world.rs` — section storage
  (uniform, paletted, direct), chunk lifecycle and journal, and the world:
  registry, resident chunks, reads and writes, and terrain generation.
- `src/codec.rs`, `src/container.rs`, `src/persist.rs`, `src/recovery.rs`,
  `src/region.rs` — the save: a little-endian codec, a container of named
  sections, the header, palette and chunk data, journal replay, and a save
  spread over region files (their names, grouping, merging and contents).
- `src/deflate.rs`, `src/png.rs`, `src/texture.rs` — deflate, zlib and PNG
  framing.
- `src/cli.rs`, `src/color.rs`, `src/noise.rs`, `src/forge.rs`,
  `src/batch.rs`, `src/preview.rs`, `src/procedural.rs`,
  `src/recipe_book.rs`, `src/layout.rs`, `src/validator.rs` — the forge's
  command line, palettes, lattice noise, seeds, where a material's and a
  recipe's files go, the structural checks on its maps, a manifest's and a
  recipe's whole-number and field checks, and the integer parts of its
  bookkeeping.
- `app/main.rs`, `app/region_files.rs` — the program: reading its arguments, the
  drawing arithmetic that needs floating point, and the region store's file
  reads and writes.
- `tests/` — behaviour checked on concrete values.

## The laws

Among what Verus proves: a section whose indices all name palette entries,
a chunk of such sections and a world read back what was written and nothing
else, and a write to a section whose palette its width can address reads
back even when stale indices elsewhere read as air; generated terrain is a
pure function of seed and position, block by block and section by section,
down to how each section is stored; every decoder in the save path reads back exactly what its encoder
wrote; a world loaded from its own save reads every position alike and holds as
many chunks; a save whose packed indices reach past a palette loads, and
those cells read as air; journal
replay applies edits in order, so the last write wins; a region's address
survives its file name, and a region file reads back the columns written to
it; two namespaces never share a directory; deflate writes
the shorter of its stored blocks and a fixed-Huffman block, whose tokens are
exactly what the greedy hash-chain match finder picks and expand back to the
input; sections wholly below the soil are stored as uniform stone that costs
nothing to hold; no torn prefix of a journal record decodes.
