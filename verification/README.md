# mpt: extension-node key constraints

A verified model of the extension-node key chip of a Merkle Patricia trie
circuit. The library builds the chip's gate and lookups as polynomials over
table cells and proves what they enforce on a table.

- `src/expr.rs`: polynomials over cells, their value in the field of integers
  modulo a prime, and lemmas on that value.
- `src/helpers.rs`: the random linear combination of a row's cells.
- `src/param.rs`: the layout of witness rows and the tags of the fixed table.
- `src/key_cells.rs`: the cells the chip reads and the polynomials built from them.
- `src/extension_node_key.rs`: the chip, its gate and its lookups.
- `src/key_laws.rs`: what a satisfied gate and the lookups enforce.
- `app/lib.rs`: registers the polynomials with a halo2 constraint system.
