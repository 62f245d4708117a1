//! Constraint model for the extension-node key gadget of a Merkle Patricia trie circuit.
pub mod expr;
pub mod helpers;
pub mod param;
pub mod key_cells;
pub mod extension_node_key;
pub mod key_laws;
pub mod key_values;
pub mod key_completeness;
