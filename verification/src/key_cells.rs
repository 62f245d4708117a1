//! The cells that the extension-node key constraints read, and the polynomials
//! built from them.
//!
//! Rows of a branch come in a fixed order: the branch init row, sixteen branch
//! child rows, then the extension node rows S and C. The constraints are
//! evaluated at extension row C, so the branch init row lies 18 rows above,
//! any branch child row 17 rows above, and the branch of the previous trie
//! level 21 rows above.
use vstd::prelude::*;
use crate::expr::{Expr, sum_of, difference, product_of};
use crate::helpers::rlc_expr;
use crate::param::{
    HASH_WIDTH, LAYOUT_OFFSET, IS_EXTENSION_NODE_POS, IS_EXTENSION_EVEN_KEY_LEN_POS,
    IS_EXTENSION_ODD_KEY_LEN_POS, IS_EXTENSION_KEY_SHORT_POS, IS_EXTENSION_KEY_LONG_POS,
};

verus! {

/// The columns that the extension-node key constraints read, by index.
pub struct ExtensionNodeKeyColumns {
    /// Fixed: zero in the first row of the table.
    pub q_not_first: usize,
    /// Fixed: zero in the rows of the first trie level.
    pub not_first_level: usize,
    pub is_branch_init: usize,
    pub is_branch_child: usize,
    pub is_last_branch_child: usize,
    pub is_account_leaf_storage_codehash_c: usize,
    pub s_rlp2: usize,
    pub s_advices: [usize; HASH_WIDTH],
    /// The index of the modified branch child.
    pub modified_node: usize,
    pub sel1: usize,
    pub sel2: usize,
    /// The random linear combination of the key nibbles so far.
    pub key_rlc: usize,
    /// The power of the randomness that the next key byte is to be multiplied with.
    pub key_rlc_mult: usize,
    /// The power of the randomness that the extension node key contributes.
    pub mult_diff: usize,
    /// Fixed: the three columns of the lookup table.
    pub fixed_table: [usize; 3],
}

/// Rotation from extension row C into the branch init row.
pub const ROT_INTO_BRANCH_INIT: i32 = -18;
/// Rotation from extension row C into the row just above the branch init row.
pub const ROT_ABOVE_BRANCH_INIT: i32 = -19;
/// Rotation from extension row C into a child row of the branch.
pub const ROT_INTO_BRANCH_CHILD: i32 = -17;
/// Rotation from extension row C into a child row of the previous level's branch.
pub const ROT_INTO_PREV_BRANCH: i32 = -21;

/// The field element one.
#[verifier::allow_in_spec]
pub fn one() -> Expr
    returns
        Expr::Constant(1),
{
    Expr::Constant(1)
}

/// The field element sixteen.
#[verifier::allow_in_spec]
pub fn c16() -> Expr
    returns
        Expr::Constant(16),
{
    Expr::Constant(16)
}

/// The field element 128.
#[verifier::allow_in_spec]
pub fn c128() -> Expr
    returns
        Expr::Constant(128),
{
    Expr::Constant(128)
}

/// The inverse of sixteen in the field.
#[verifier::allow_in_spec]
pub fn c16inv() -> Expr
    returns
        Expr::Inverse(16),
{
    Expr::Inverse(16)
}

#[verifier::allow_in_spec]
pub fn q_not_first(c: &ExtensionNodeKeyColumns) -> Expr
    returns
        Expr::Fixed(c.q_not_first, 0i32),
{
    Expr::Fixed(c.q_not_first, 0)
}

#[verifier::allow_in_spec]
pub fn not_first_level(c: &ExtensionNodeKeyColumns) -> Expr
    returns
        Expr::Fixed(c.not_first_level, 0i32),
{
    Expr::Fixed(c.not_first_level, 0)
}

/// The flag of the branch init row at a position of the `s_advices` block.
#[verifier::allow_in_spec]
pub fn branch_init_flag(c: &ExtensionNodeKeyColumns, pos: usize) -> Expr
    requires
        LAYOUT_OFFSET <= pos < HASH_WIDTH + LAYOUT_OFFSET,
    returns
        Expr::Advice(c.s_advices[pos - LAYOUT_OFFSET], ROT_INTO_BRANCH_INIT),
{
    Expr::Advice(c.s_advices[pos - LAYOUT_OFFSET], ROT_INTO_BRANCH_INIT)
}

#[verifier::allow_in_spec]
pub fn is_extension_node(c: &ExtensionNodeKeyColumns) -> Expr
    returns
        branch_init_flag(c, IS_EXTENSION_NODE_POS),
{
    branch_init_flag(c, IS_EXTENSION_NODE_POS)
}

/// Whether the number of compactly encoded key nibbles is even.
#[verifier::allow_in_spec]
pub fn is_key_even(c: &ExtensionNodeKeyColumns) -> Expr
    returns
        branch_init_flag(c, IS_EXTENSION_EVEN_KEY_LEN_POS),
{
    branch_init_flag(c, IS_EXTENSION_EVEN_KEY_LEN_POS)
}

/// Whether the number of compactly encoded key nibbles is odd.
#[verifier::allow_in_spec]
pub fn is_key_odd(c: &ExtensionNodeKeyColumns) -> Expr
    returns
        branch_init_flag(c, IS_EXTENSION_ODD_KEY_LEN_POS),
{
    branch_init_flag(c, IS_EXTENSION_ODD_KEY_LEN_POS)
}

#[verifier::allow_in_spec]
pub fn is_short(c: &ExtensionNodeKeyColumns) -> Expr
    returns
        branch_init_flag(c, IS_EXTENSION_KEY_SHORT_POS),
{
    branch_init_flag(c, IS_EXTENSION_KEY_SHORT_POS)
}

#[verifier::allow_in_spec]
pub fn is_long(c: &ExtensionNodeKeyColumns) -> Expr
    returns
        branch_init_flag(c, IS_EXTENSION_KEY_LONG_POS),
{
    branch_init_flag(c, IS_EXTENSION_KEY_LONG_POS)
}

/// In the branch init row: the modified child nibble is the first nibble of its byte.
#[verifier::allow_in_spec]
pub fn sel1(c: &ExtensionNodeKeyColumns) -> Expr
    returns
        Expr::Advice(c.sel1, ROT_INTO_BRANCH_INIT),
{
    Expr::Advice(c.sel1, ROT_INTO_BRANCH_INIT)
}

/// In the branch init row: the modified child nibble is the second nibble of its byte.
#[verifier::allow_in_spec]
pub fn sel2(c: &ExtensionNodeKeyColumns) -> Expr
    returns
        Expr::Advice(c.sel2, ROT_INTO_BRANCH_INIT),
{
    Expr::Advice(c.sel2, ROT_INTO_BRANCH_INIT)
}

#[verifier::allow_in_spec]
pub fn is_account_leaf_storage_codehash_prev(c: &ExtensionNodeKeyColumns) -> Expr
    returns
        Expr::Advice(c.is_account_leaf_storage_codehash_c, ROT_ABOVE_BRANCH_INIT),
{
    Expr::Advice(c.is_account_leaf_storage_codehash_c, ROT_ABOVE_BRANCH_INIT)
}

#[verifier::allow_in_spec]
pub fn is_branch_init_prev(c: &ExtensionNodeKeyColumns) -> Expr
    returns
        Expr::Advice(c.is_branch_init, -1i32),
{
    Expr::Advice(c.is_branch_init, -1)
}

#[verifier::allow_in_spec]
pub fn is_branch_child_prev(c: &ExtensionNodeKeyColumns) -> Expr
    returns
        Expr::Advice(c.is_branch_child, -1i32),
{
    Expr::Advice(c.is_branch_child, -1)
}

#[verifier::allow_in_spec]
pub fn is_branch_child_cur(c: &ExtensionNodeKeyColumns) -> Expr
    returns
        Expr::Advice(c.is_branch_child, 0i32),
{
    Expr::Advice(c.is_branch_child, 0)
}

#[verifier::allow_in_spec]
pub fn modified_node_cur(c: &ExtensionNodeKeyColumns) -> Expr
    returns
        Expr::Advice(c.modified_node, -2i32),
{
    Expr::Advice(c.modified_node, -2)
}

#[verifier::allow_in_spec]
pub fn is_extension_s_row(c: &ExtensionNodeKeyColumns) -> Expr
    returns
        Expr::Advice(c.is_last_branch_child, -1i32),
{
    Expr::Advice(c.is_last_branch_child, -1)
}

#[verifier::allow_in_spec]
pub fn is_extension_c_row(c: &ExtensionNodeKeyColumns) -> Expr
    returns
        Expr::Advice(c.is_last_branch_child, -2i32),
{
    Expr::Advice(c.is_last_branch_child, -2)
}

#[verifier::allow_in_spec]
pub fn key_rlc_prev(c: &ExtensionNodeKeyColumns) -> Expr
    returns
        Expr::Advice(c.key_rlc, -1i32),
{
    Expr::Advice(c.key_rlc, -1)
}

#[verifier::allow_in_spec]
pub fn key_rlc_prev_level(c: &ExtensionNodeKeyColumns) -> Expr
    returns
        Expr::Advice(c.key_rlc, ROT_INTO_PREV_BRANCH),
{
    Expr::Advice(c.key_rlc, ROT_INTO_PREV_BRANCH)
}

#[verifier::allow_in_spec]
pub fn key_rlc_cur(c: &ExtensionNodeKeyColumns) -> Expr
    returns
        Expr::Advice(c.key_rlc, 0i32),
{
    Expr::Advice(c.key_rlc, 0)
}

#[verifier::allow_in_spec]
pub fn mult_diff_cur(c: &ExtensionNodeKeyColumns) -> Expr
    returns
        Expr::Advice(c.mult_diff, 0i32),
{
    Expr::Advice(c.mult_diff, 0)
}

#[verifier::allow_in_spec]
pub fn mult_diff_prev(c: &ExtensionNodeKeyColumns) -> Expr
    returns
        Expr::Advice(c.mult_diff, -1i32),
{
    Expr::Advice(c.mult_diff, -1)
}

#[verifier::allow_in_spec]
pub fn key_rlc_mult_prev(c: &ExtensionNodeKeyColumns) -> Expr
    returns
        Expr::Advice(c.key_rlc_mult, -1i32),
{
    Expr::Advice(c.key_rlc_mult, -1)
}

#[verifier::allow_in_spec]
pub fn key_rlc_mult_prev_level(c: &ExtensionNodeKeyColumns) -> Expr
    returns
        Expr::Advice(c.key_rlc_mult, ROT_INTO_PREV_BRANCH),
{
    Expr::Advice(c.key_rlc_mult, ROT_INTO_PREV_BRANCH)
}

#[verifier::allow_in_spec]
pub fn key_rlc_mult_cur(c: &ExtensionNodeKeyColumns) -> Expr
    returns
        Expr::Advice(c.key_rlc_mult, 0i32),
{
    Expr::Advice(c.key_rlc_mult, 0)
}

#[verifier::allow_in_spec]
pub fn key_rlc_branch(c: &ExtensionNodeKeyColumns) -> Expr
    returns
        Expr::Advice(c.key_rlc, ROT_INTO_BRANCH_CHILD),
{
    Expr::Advice(c.key_rlc, ROT_INTO_BRANCH_CHILD)
}

#[verifier::allow_in_spec]
pub fn key_rlc_mult_branch(c: &ExtensionNodeKeyColumns) -> Expr
    returns
        Expr::Advice(c.key_rlc_mult, ROT_INTO_BRANCH_CHILD),
{
    Expr::Advice(c.key_rlc_mult, ROT_INTO_BRANCH_CHILD)
}

#[verifier::allow_in_spec]
pub fn mult_diff_branch(c: &ExtensionNodeKeyColumns) -> Expr
    returns
        Expr::Advice(c.mult_diff, ROT_INTO_BRANCH_CHILD),
{
    Expr::Advice(c.mult_diff, ROT_INTO_BRANCH_CHILD)
}

/// The `s_rlp2` cell of extension row S.
#[verifier::allow_in_spec]
pub fn s_rlp2_prev(c: &ExtensionNodeKeyColumns) -> Expr
    returns
        Expr::Advice(c.s_rlp2, -1i32),
{
    Expr::Advice(c.s_rlp2, -1)
}

/// A byte cell of extension row S.
#[verifier::allow_in_spec]
pub fn s_advice_prev(c: &ExtensionNodeKeyColumns, i: usize) -> Expr
    requires
        i < HASH_WIDTH,
    returns
        Expr::Advice(c.s_advices[i as int], -1i32),
{
    Expr::Advice(c.s_advices[i], -1)
}

/// A byte cell of extension row C.
#[verifier::allow_in_spec]
pub fn s_advice_cur(c: &ExtensionNodeKeyColumns, i: usize) -> Expr
    requires
        i < HASH_WIDTH,
    returns
        Expr::Advice(c.s_advices[i as int], 0i32),
{
    Expr::Advice(c.s_advices[i], 0)
}

/// The polynomial `sel · (x - y)`: it vanishes where the selector is zero or `x = y`.
#[verifier::allow_in_spec]
pub fn gated(sel: Expr, x: Expr, y: Expr) -> Expr
    returns
        product_of(sel, difference(x, y)),
{
    product_of(sel, difference(x, y))
}

/// Selects consecutive branch child rows.
#[verifier::allow_in_spec]
pub fn branch_children_selector(c: &ExtensionNodeKeyColumns) -> Expr
    returns
        product_of(product_of(q_not_first(c), is_branch_child_prev(c)), is_branch_child_cur(c)),
{
    product_of(product_of(q_not_first(c), is_branch_child_prev(c)), is_branch_child_cur(c))
}

/// Selects an extension row (S or C, as `row` says) of a branch that has no extension node.
#[verifier::allow_in_spec]
pub fn not_extension_selector(c: &ExtensionNodeKeyColumns, row: Expr) -> Expr
    returns
        product_of(
            product_of(
                product_of(
                    product_of(q_not_first(c), difference(one(), is_branch_init_prev(c))),
                    difference(one(), is_branch_child_prev(c)),
                ),
                row,
            ),
            difference(one(), is_extension_node(c)),
        ),
{
    product_of(
        product_of(
            product_of(
                product_of(q_not_first(c), difference(one(), is_branch_init_prev(c))),
                difference(one(), is_branch_child_prev(c)),
            ),
            row,
        ),
        difference(one(), is_extension_node(c)),
    )
}

/// Selects extension row C of an extension node at the first level of an account proof.
#[verifier::allow_in_spec]
pub fn account_first_selector(c: &ExtensionNodeKeyColumns) -> Expr
    returns
        product_of(
            product_of(
                product_of(
                    product_of(
                        product_of(q_not_first(c), difference(one(), is_branch_init_prev(c))),
                        difference(one(), is_branch_child_prev(c)),
                    ),
                    difference(one(), not_first_level(c)),
                ),
                is_extension_node(c),
            ),
            is_extension_c_row(c),
        ),
{
    product_of(
        product_of(
            product_of(
                product_of(
                    product_of(q_not_first(c), difference(one(), is_branch_init_prev(c))),
                    difference(one(), is_branch_child_prev(c)),
                ),
                difference(one(), not_first_level(c)),
            ),
            is_extension_node(c),
        ),
        is_extension_c_row(c),
    )
}

/// Selects extension row C of an extension node at the first level of a storage proof.
#[verifier::allow_in_spec]
pub fn storage_first_selector(c: &ExtensionNodeKeyColumns) -> Expr
    returns
        product_of(
            product_of(
                product_of(not_first_level(c), is_account_leaf_storage_codehash_prev(c)),
                is_extension_node(c),
            ),
            is_extension_c_row(c),
        ),
{
    product_of(
        product_of(
            product_of(not_first_level(c), is_account_leaf_storage_codehash_prev(c)),
            is_extension_node(c),
        ),
        is_extension_c_row(c),
    )
}

/// Selects extension row C of an extension node with a long key below the
/// first level, with `parity` the flag of even or of odd key length.
#[verifier::allow_in_spec]
pub fn long_selector(c: &ExtensionNodeKeyColumns, parity: Expr) -> Expr
    returns
        product_of(
            product_of(
                product_of(
                    product_of(
                        product_of(
                            not_first_level(c),
                            difference(one(), is_account_leaf_storage_codehash_prev(c)),
                        ),
                        is_extension_node(c),
                    ),
                    is_extension_c_row(c),
                ),
                parity,
            ),
            is_long(c),
        ),
{
    product_of(
        product_of(
            product_of(
                product_of(
                    product_of(
                        not_first_level(c),
                        difference(one(), is_account_leaf_storage_codehash_prev(c)),
                    ),
                    is_extension_node(c),
                ),
                is_extension_c_row(c),
            ),
            parity,
        ),
        is_long(c),
    )
}

/// Selects extension row C of an extension node with a short key below the first level.
#[verifier::allow_in_spec]
pub fn short_selector(c: &ExtensionNodeKeyColumns) -> Expr
    returns
        product_of(
            product_of(
                product_of(
                    product_of(
                        not_first_level(c),
                        difference(one(), is_account_leaf_storage_codehash_prev(c)),
                    ),
                    is_extension_node(c),
                ),
                is_extension_c_row(c),
            ),
            is_short(c),
        ),
{
    product_of(
        product_of(
            product_of(
                product_of(
                    not_first_level(c),
                    difference(one(), is_account_leaf_storage_codehash_prev(c)),
                ),
                is_extension_node(c),
            ),
            is_extension_c_row(c),
        ),
        is_short(c),
    )
}

/// The long-key selector of the lookups, which does not read `not_first_level`.
#[verifier::allow_in_spec]
pub fn lookup_long_selector(c: &ExtensionNodeKeyColumns, parity: Expr) -> Expr
    returns
        product_of(
            product_of(
                product_of(
                    product_of(
                        difference(one(), is_account_leaf_storage_codehash_prev(c)),
                        is_extension_node(c),
                    ),
                    is_extension_c_row(c),
                ),
                parity,
            ),
            is_long(c),
        ),
{
    product_of(
        product_of(
            product_of(
                product_of(
                    difference(one(), is_account_leaf_storage_codehash_prev(c)),
                    is_extension_node(c),
                ),
                is_extension_c_row(c),
            ),
            parity,
        ),
        is_long(c),
    )
}

/// The first nibble of byte `ind + 1` of extension row S, given its second
/// nibble in cell `ind` of extension row C: `(byte - second) / 16`.
#[verifier::allow_in_spec]
pub fn first_nibble(c: &ExtensionNodeKeyColumns, ind: usize) -> Expr
    requires
        ind + 1 < HASH_WIDTH,
    returns
        product_of(difference(s_advice_prev(c, (ind + 1) as usize), s_advice_cur(c, ind)), c16inv()),
{
    product_of(difference(s_advice_prev(c, ind + 1), s_advice_cur(c, ind)), c16inv())
}

/// The key of a short extension node at the first level: `(s_rlp2 - 16) · 16`.
#[verifier::allow_in_spec]
pub fn first_level_short_ext_rlc(c: &ExtensionNodeKeyColumns) -> Expr
    returns
        product_of(difference(s_rlp2_prev(c), c16()), c16()),
{
    product_of(difference(s_rlp2_prev(c), c16()), c16())
}

/// The key of a short extension node at the first level, with the modified child nibble.
#[verifier::allow_in_spec]
pub fn first_level_short_branch_rlc(c: &ExtensionNodeKeyColumns) -> Expr
    returns
        sum_of(first_level_short_ext_rlc(c), modified_node_cur(c)),
{
    sum_of(first_level_short_ext_rlc(c), modified_node_cur(c))
}

/// The key RLC after a short extension node, where its nibble comes first in its byte.
#[verifier::allow_in_spec]
pub fn short_sel1_rlc(c: &ExtensionNodeKeyColumns) -> Expr
    returns
        sum_of(
            key_rlc_prev_level(c),
            product_of(difference(s_rlp2_prev(c), c16()), key_rlc_mult_prev_level(c)),
        ),
{
    sum_of(
        key_rlc_prev_level(c),
        product_of(difference(s_rlp2_prev(c), c16()), key_rlc_mult_prev_level(c)),
    )
}

/// The key RLC after a short extension node, where its nibble comes second in its byte.
#[verifier::allow_in_spec]
pub fn short_sel2_rlc(c: &ExtensionNodeKeyColumns) -> Expr
    returns
        sum_of(
            key_rlc_prev_level(c),
            product_of(
                product_of(c16(), difference(s_rlp2_prev(c), c16())),
                key_rlc_mult_prev_level(c),
            ),
        ),
{
    sum_of(
        key_rlc_prev_level(c),
        product_of(
            product_of(c16(), difference(s_rlp2_prev(c), c16())),
            key_rlc_mult_prev_level(c),
        ),
    )
}

/// The start of the long odd key RLC, where the nibble of the first byte comes first.
#[verifier::allow_in_spec]
pub fn long_odd_sel1_start(c: &ExtensionNodeKeyColumns) -> Expr
    returns
        sum_of(
            key_rlc_prev_level(c),
            product_of(
                product_of(c16(), difference(s_advice_prev(c, 0), c16())),
                key_rlc_mult_prev_level(c),
            ),
        ),
{
    sum_of(
        key_rlc_prev_level(c),
        product_of(
            product_of(c16(), difference(s_advice_prev(c, 0), c16())),
            key_rlc_mult_prev_level(c),
        ),
    )
}

/// One step of a nibble-wise key RLC: adds the two nibbles of byte `ind + 1`,
/// the second one weighted by `16 · r`.
#[verifier::allow_in_spec]
pub fn nibble_rlc_step(c: &ExtensionNodeKeyColumns, acc: Expr, ind: usize, r: Expr) -> Expr
    requires
        ind + 1 < HASH_WIDTH,
    returns
        sum_of(
            sum_of(acc, product_of(first_nibble(c, ind), key_rlc_mult_prev_level(c))),
            product_of(
                product_of(product_of(s_advice_cur(c, ind), c16()), key_rlc_mult_prev_level(c)),
                r,
            ),
        ),
{
    sum_of(
        sum_of(acc, product_of(first_nibble(c, ind), key_rlc_mult_prev_level(c))),
        product_of(
            product_of(product_of(s_advice_cur(c, ind), c16()), key_rlc_mult_prev_level(c)),
            r,
        ),
    )
}

/// The nibble-wise key RLC over the first `n` bytes after the first one, from `start`.
pub open spec fn nibble_rlc(c: ExtensionNodeKeyColumns, start: Expr, n: nat, r_table: Seq<Expr>) -> Expr
    decreases n,
{
    if n == 0 {
        start
    } else {
        nibble_rlc_step(
            &c,
            nibble_rlc(c, start, (n - 1) as nat, r_table),
            (n - 1) as usize,
            r_table[n - 1],
        )
    }
}

/// The key of a long even extension node at the first level.
pub open spec fn first_level_long_even_rlc(c: ExtensionNodeKeyColumns, r_table: Seq<Expr>) -> Expr {
    sum_of(
        sum_of(
            s_advice_prev(&c, 1),
            rlc_expr(c.s_advices@.subrange(1, HASH_WIDTH as int), 0, one(), -1i32, r_table),
        ),
        product_of(modified_node_cur(&c), c16()),
    )
}

/// The key RLC after a long even extension node, where the modified child
/// nibble comes first in its byte.
pub open spec fn long_even_sel1_rlc(c: ExtensionNodeKeyColumns, r_table: Seq<Expr>) -> Expr {
    sum_of(
        sum_of(key_rlc_prev_level(&c), product_of(s_advice_prev(&c, 1), key_rlc_mult_prev_level(&c))),
        rlc_expr(
            c.s_advices@.subrange(2, HASH_WIDTH as int),
            0,
            key_rlc_mult_prev_level(&c),
            -1i32,
            r_table,
        ),
    )
}

/// The key RLC after a long even extension node, where the modified child
/// nibble comes second in its byte.
pub open spec fn long_even_sel2_rlc(c: ExtensionNodeKeyColumns, r_table: Seq<Expr>) -> Expr {
    nibble_rlc(c, key_rlc_prev_level(&c), (HASH_WIDTH - 1) as nat, r_table)
}

/// The key RLC after a long odd extension node, where the modified child
/// nibble comes first in its byte.
pub open spec fn long_odd_sel1_rlc(c: ExtensionNodeKeyColumns, r_table: Seq<Expr>) -> Expr {
    nibble_rlc(c, long_odd_sel1_start(&c), (HASH_WIDTH - 1) as nat, r_table)
}

/// The key RLC after a long odd extension node, where the modified child
/// nibble comes second in its byte.
pub open spec fn long_odd_sel2_rlc(c: ExtensionNodeKeyColumns, r_table: Seq<Expr>) -> Expr {
    sum_of(
        sum_of(
            key_rlc_prev_level(&c),
            product_of(difference(s_advice_prev(&c, 0), c16()), key_rlc_mult_prev_level(&c)),
        ),
        rlc_expr(
            c.s_advices@.subrange(1, HASH_WIDTH as int),
            0,
            key_rlc_mult_prev_level(&c),
            -1i32,
            r_table,
        ),
    )
}

} // verus!
