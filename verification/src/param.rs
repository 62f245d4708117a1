//! Layout parameters of the trie circuit's witness rows.
use vstd::prelude::*;

verus! {

/// The number of byte cells in the `s_advices` block of a row.
pub const HASH_WIDTH: usize = 32;
/// The number of leading cells of a row that precede the `s_advices` block.
pub const LAYOUT_OFFSET: usize = 2;
/// Position, within a branch init row, of the flag for an extension node.
pub const IS_EXTENSION_NODE_POS: usize = 14;
/// Position, within a branch init row, of the flag for an even number of key nibbles.
pub const IS_EXTENSION_EVEN_KEY_LEN_POS: usize = 15;
/// Position, within a branch init row, of the flag for an odd number of key nibbles.
pub const IS_EXTENSION_ODD_KEY_LEN_POS: usize = 16;
/// Position, within a branch init row, of the flag for a key of one byte.
pub const IS_EXTENSION_KEY_SHORT_POS: usize = 17;
/// Position, within a branch init row, of the flag for a key of more than one byte.
pub const IS_EXTENSION_KEY_LONG_POS: usize = 18;

/// The tags of the fixed lookup table: the first fixed table column of each
/// table row holds one of them.
pub enum FixedTableTag {
    /// Rows that pair a key length with the power of the randomness it gives.
    RMult,
    /// Rows that hold the values `0..16`.
    Range16,
}

impl FixedTableTag {
    /// The number that stands for the tag in the fixed table.
    #[verifier::allow_in_spec]
    pub fn value(&self) -> u64
        returns
            (match self {
                FixedTableTag::RMult => 0u64,
                FixedTableTag::Range16 => 1u64,
            }),
    {
        match self {
            FixedTableTag::RMult => 0,
            FixedTableTag::Range16 => 1,
        }
    }
}

} // verus!
