//! What the extension-node key gate and lookups enforce on the cells of a
//! table, in the field of integers modulo `p`.
use vstd::prelude::*;
use vstd::arithmetic::div_mod::*;
use crate::expr::{
    Expr, Cells, eval, value, sum_of, difference, product_of, lemma_eval_is_value,
    lemma_eval_product_of_ones, lemma_eval_product_with_zero, lemma_eval_one_minus,
    lemma_eval_difference, lemma_equal_if_difference_zero, lemma_eval_range,
    lemma_eval_product_with_one, lemma_eval_sum_with_zero,
    lemma_inverse_of_sixteen,
};
use crate::key_cells::{
    ExtensionNodeKeyColumns, one, c16, c128, s_rlp2_prev, q_not_first, not_first_level,
    is_extension_node, nibble_rlc,
    is_key_even, is_key_odd, is_short, is_long, sel1, sel2, is_account_leaf_storage_codehash_prev,
    is_branch_init_prev, is_branch_child_prev, is_branch_child_cur, modified_node_cur,
    is_extension_s_row, is_extension_c_row, key_rlc_prev, key_rlc_cur,
    mult_diff_cur, mult_diff_prev, key_rlc_mult_prev, key_rlc_mult_prev_level, key_rlc_mult_cur,
    key_rlc_branch, key_rlc_mult_branch, mult_diff_branch, s_advice_prev, s_advice_cur, gated,
    branch_children_selector, not_extension_selector, account_first_selector,
    storage_first_selector, long_selector, short_selector, lookup_long_selector, first_nibble,
    first_level_short_ext_rlc, first_level_short_branch_rlc, short_sel1_rlc, short_sel2_rlc,
    first_level_long_even_rlc, long_even_sel1_rlc, long_even_sel2_rlc, long_odd_sel1_rlc,
    long_odd_sel2_rlc,
};
use crate::extension_node_key::{
    Constraint, key_bytes, gate_constraints, branch_children_constraints,
    not_extension_constraints, first_level_constraints, long_even_constraints,
    long_odd_constraints, short_constraints, nibble_constraint, lookups,
    long_selectors_sum, nibble_lookup_selector, mult_diff_lookup, second_nibble_lookup,
    first_nibble_lookup,
};

verus! {

/// Every polynomial of the list vanishes for the cell values.
pub open spec fn satisfied(cs: Seq<Constraint>, p: int, w: Cells) -> bool {
    forall|i: int| 0 <= i < cs.len() ==> eval(#[trigger] cs[i].poly, p, w) == 0
}

/// Every polynomial of the chip's gate vanishes for the cell values.
pub open spec fn gate_satisfied(c: ExtensionNodeKeyColumns, r_table: Seq<Expr>, p: int, w: Cells) -> bool {
    satisfied(gate_constraints(c, r_table), p, w)
}

proof fn lemma_satisfied_split(a: Seq<Constraint>, b: Seq<Constraint>, p: int, w: Cells)
    requires
        satisfied(a + b, p, w),
    ensures
        satisfied(a, p, w),
        satisfied(b, p, w),
{
    assert forall|i: int| 0 <= i < a.len() implies eval(#[trigger] a[i].poly, p, w) == 0 by {
        assert((a + b)[i] == a[i]);
    }
    assert forall|i: int| 0 <= i < b.len() implies eval(#[trigger] b[i].poly, p, w) == 0 by {
        assert((a + b)[a.len() + i] == b[i]);
    }
}

proof fn lemma_gate_parts(c: ExtensionNodeKeyColumns, r_table: Seq<Expr>, p: int, w: Cells)
    requires
        gate_satisfied(c, r_table, p, w),
    ensures
        satisfied(branch_children_constraints(c), p, w),
        satisfied(not_extension_constraints(c), p, w),
        satisfied(first_level_constraints(c, r_table), p, w),
        satisfied(long_even_constraints(c, r_table), p, w),
        satisfied(long_odd_constraints(c, r_table), p, w),
        satisfied(short_constraints(c, r_table), p, w),
{
    let b = branch_children_constraints(c);
    let n = not_extension_constraints(c);
    let f = first_level_constraints(c, r_table);
    let le = long_even_constraints(c, r_table);
    let lo = long_odd_constraints(c, r_table);
    let sh = short_constraints(c, r_table);
    lemma_satisfied_split(b + n + f + le + lo, sh, p, w);
    lemma_satisfied_split(b + n + f + le, lo, p, w);
    lemma_satisfied_split(b + n + f, le, p, w);
    lemma_satisfied_split(b + n, f, p, w);
    lemma_satisfied_split(b, n, p, w);
}

/// A gated polynomial `sel · (x - y)` vanishes wherever its selector is zero.
pub proof fn lemma_gated_off(sel: Expr, x: Expr, y: Expr, p: int, w: Cells)
    requires
        p > 0,
        eval(sel, p, w) == 0,
    ensures
        eval(gated(sel, x, y), p, w) == 0,
{
    lemma_eval_product_with_zero(sel, difference(x, y), p, w);
}

/// Where its selector is one, a gated polynomial `sel · (x - y)` vanishes
/// just where `x` and `y` have the same value in the field.
pub proof fn lemma_gated_on(sel: Expr, x: Expr, y: Expr, p: int, w: Cells)
    requires
        p > 0,
        eval(sel, p, w) == 1,
    ensures
        eval(gated(sel, x, y), p, w) == 0 <==> eval(x, p, w) == eval(y, p, w),
{
    let d = difference(x, y);
    lemma_eval_difference(x, y, p, w);
    lemma_eval_range(d, p, w);
    lemma_eval_range(x, p, w);
    lemma_eval_range(y, p, w);
    lemma_small_mod(eval(d, p, w) as nat, p as nat);
    assert(eval(gated(sel, x, y), p, w) == eval(d, p, w));
    if eval(x, p, w) == eval(y, p, w) {
        lemma_small_mod(0nat, p as nat);
    }
    if eval(d, p, w) == 0 {
        lemma_equal_if_difference_zero(eval(x, p, w), eval(y, p, w), p);
    }
}

/// Over consecutive child rows of a branch (below the first row of the table),
/// a satisfied gate keeps the key RLC, its multiplier and `mult_diff`.
pub proof fn lemma_branch_children_keep_key(
    c: ExtensionNodeKeyColumns,
    r_table: Seq<Expr>,
    p: int,
    w: Cells,
)
    requires
        p > 1,
        gate_satisfied(c, r_table, p, w),
        eval(q_not_first(&c), p, w) == 1,
        eval(is_branch_child_prev(&c), p, w) == 1,
        eval(is_branch_child_cur(&c), p, w) == 1,
    ensures
        eval(key_rlc_cur(&c), p, w) == eval(key_rlc_prev(&c), p, w),
        eval(key_rlc_mult_cur(&c), p, w) == eval(key_rlc_mult_prev(&c), p, w),
        eval(mult_diff_cur(&c), p, w) == eval(mult_diff_prev(&c), p, w),
{
    lemma_gate_parts(c, r_table, p, w);
    let g = branch_children_constraints(c);
    let sel = branch_children_selector(&c);
    lemma_eval_product_of_ones(q_not_first(&c), is_branch_child_prev(&c), p, w);
    lemma_eval_product_of_ones(
        product_of(q_not_first(&c), is_branch_child_prev(&c)),
        is_branch_child_cur(&c),
        p,
        w,
    );
    assert(eval(g[0].poly, p, w) == 0);
    assert(eval(g[1].poly, p, w) == 0);
    assert(eval(g[2].poly, p, w) == 0);
    lemma_gated_on(sel, key_rlc_cur(&c), key_rlc_prev(&c), p, w);
    lemma_gated_on(sel, key_rlc_mult_cur(&c), key_rlc_mult_prev(&c), p, w);
    lemma_gated_on(sel, mult_diff_cur(&c), mult_diff_prev(&c), p, w);
}

/// In the extension rows of a branch that has no extension node (below the
/// first row of the table, and with the row above not a branch row), a
/// satisfied gate repeats the key RLC and its multiplier of the row above.
pub proof fn lemma_not_extension_keeps_key(
    c: ExtensionNodeKeyColumns,
    r_table: Seq<Expr>,
    p: int,
    w: Cells,
)
    requires
        p > 1,
        gate_satisfied(c, r_table, p, w),
        eval(q_not_first(&c), p, w) == 1,
        eval(is_branch_init_prev(&c), p, w) == 0,
        eval(is_branch_child_prev(&c), p, w) == 0,
        eval(is_extension_node(&c), p, w) == 0,
    ensures
        eval(is_extension_s_row(&c), p, w) == 1 ==> eval(key_rlc_cur(&c), p, w) == eval(
            key_rlc_prev(&c),
            p,
            w,
        ) && eval(key_rlc_mult_cur(&c), p, w) == eval(key_rlc_mult_prev(&c), p, w),
        eval(is_extension_c_row(&c), p, w) == 1 ==> eval(key_rlc_cur(&c), p, w) == eval(
            key_rlc_prev(&c),
            p,
            w,
        ) && eval(key_rlc_mult_cur(&c), p, w) == eval(key_rlc_mult_prev(&c), p, w),
{
    lemma_gate_parts(c, r_table, p, w);
    let g = not_extension_constraints(c);
    lemma_eval_one_minus(is_branch_init_prev(&c), p, w);
    lemma_eval_one_minus(is_branch_child_prev(&c), p, w);
    lemma_eval_one_minus(is_extension_node(&c), p, w);
    let a = product_of(q_not_first(&c), difference(one(), is_branch_init_prev(&c)));
    lemma_eval_product_of_ones(q_not_first(&c), difference(one(), is_branch_init_prev(&c)), p, w);
    let b = product_of(a, difference(one(), is_branch_child_prev(&c)));
    lemma_eval_product_of_ones(a, difference(one(), is_branch_child_prev(&c)), p, w);
    assert(eval(g[0].poly, p, w) == 0);
    assert(eval(g[1].poly, p, w) == 0);
    assert(eval(g[2].poly, p, w) == 0);
    assert(eval(g[3].poly, p, w) == 0);
    if eval(is_extension_s_row(&c), p, w) == 1 {
        lemma_eval_product_of_ones(b, is_extension_s_row(&c), p, w);
        lemma_eval_product_of_ones(
            product_of(b, is_extension_s_row(&c)),
            difference(one(), is_extension_node(&c)),
            p,
            w,
        );
        let sel = not_extension_selector(&c, is_extension_s_row(&c));
        lemma_gated_on(sel, key_rlc_cur(&c), key_rlc_prev(&c), p, w);
        lemma_gated_on(sel, key_rlc_mult_cur(&c), key_rlc_mult_prev(&c), p, w);
    }
    if eval(is_extension_c_row(&c), p, w) == 1 {
        lemma_eval_product_of_ones(b, is_extension_c_row(&c), p, w);
        lemma_eval_product_of_ones(
            product_of(b, is_extension_c_row(&c)),
            difference(one(), is_extension_node(&c)),
            p,
            w,
        );
        let sel = not_extension_selector(&c, is_extension_c_row(&c));
        lemma_gated_on(sel, key_rlc_cur(&c), key_rlc_prev(&c), p, w);
        lemma_gated_on(sel, key_rlc_mult_cur(&c), key_rlc_mult_prev(&c), p, w);
    }
}

/// The long-key selector is one at extension row C of a long extension node
/// below the first level with the given parity flag set.
pub proof fn lemma_long_selector_is_one(c: ExtensionNodeKeyColumns, parity: Expr, p: int, w: Cells)
    requires
        p > 1,
        eval(not_first_level(&c), p, w) == 1,
        eval(is_account_leaf_storage_codehash_prev(&c), p, w) == 0,
        eval(is_extension_node(&c), p, w) == 1,
        eval(is_extension_c_row(&c), p, w) == 1,
        eval(parity, p, w) == 1,
        eval(is_long(&c), p, w) == 1,
    ensures
        eval(long_selector(&c, parity), p, w) == 1,
{
    let na = difference(one(), is_account_leaf_storage_codehash_prev(&c));
    lemma_eval_one_minus(is_account_leaf_storage_codehash_prev(&c), p, w);
    let a = product_of(not_first_level(&c), na);
    lemma_eval_product_of_ones(not_first_level(&c), na, p, w);
    let b = product_of(a, is_extension_node(&c));
    lemma_eval_product_of_ones(a, is_extension_node(&c), p, w);
    let d = product_of(b, is_extension_c_row(&c));
    lemma_eval_product_of_ones(b, is_extension_c_row(&c), p, w);
    let e = product_of(d, parity);
    lemma_eval_product_of_ones(d, parity, p, w);
    lemma_eval_product_of_ones(e, is_long(&c), p, w);
}

/// The short-key selector is one at extension row C of a short extension node below the first level.
pub proof fn lemma_short_selector_is_one(c: ExtensionNodeKeyColumns, p: int, w: Cells)
    requires
        p > 1,
        eval(not_first_level(&c), p, w) == 1,
        eval(is_account_leaf_storage_codehash_prev(&c), p, w) == 0,
        eval(is_extension_node(&c), p, w) == 1,
        eval(is_extension_c_row(&c), p, w) == 1,
        eval(is_short(&c), p, w) == 1,
    ensures
        eval(short_selector(&c), p, w) == 1,
{
    let na = difference(one(), is_account_leaf_storage_codehash_prev(&c));
    lemma_eval_one_minus(is_account_leaf_storage_codehash_prev(&c), p, w);
    let a = product_of(not_first_level(&c), na);
    lemma_eval_product_of_ones(not_first_level(&c), na, p, w);
    let b = product_of(a, is_extension_node(&c));
    lemma_eval_product_of_ones(a, is_extension_node(&c), p, w);
    let d = product_of(b, is_extension_c_row(&c));
    lemma_eval_product_of_ones(b, is_extension_c_row(&c), p, w);
    lemma_eval_product_of_ones(d, is_short(&c), p, w);
}

/// At extension row C of an extension node whose key has an even number of
/// nibbles and more than one byte, below the first level, a satisfied gate
/// sets the key RLC to the RLC of the previous level followed by the key
/// bytes, and the branch key RLC and multiplier to add the modified child
/// nibble after them; `sel1` and `sel2` say where that nibble stands in its byte.
pub proof fn lemma_long_even_key(c: ExtensionNodeKeyColumns, r_table: Seq<Expr>, p: int, w: Cells)
    requires
        p > 1,
        gate_satisfied(c, r_table, p, w),
        eval(not_first_level(&c), p, w) == 1,
        eval(is_account_leaf_storage_codehash_prev(&c), p, w) == 0,
        eval(is_extension_node(&c), p, w) == 1,
        eval(is_extension_c_row(&c), p, w) == 1,
        eval(is_key_even(&c), p, w) == 1,
        eval(is_long(&c), p, w) == 1,
    ensures
        eval(sel1(&c), p, w) == 1 ==> {
            &&& eval(key_rlc_cur(&c), p, w) == eval(long_even_sel1_rlc(c, r_table), p, w)
            &&& eval(difference(key_rlc_branch(&c), key_rlc_cur(&c)), p, w) == eval(
                product_of(
                    product_of(product_of(c16(), modified_node_cur(&c)), key_rlc_mult_prev_level(&c)),
                    mult_diff_branch(&c),
                ),
                p,
                w,
            )
            &&& eval(key_rlc_mult_branch(&c), p, w) == eval(
                product_of(key_rlc_mult_prev_level(&c), mult_diff_branch(&c)),
                p,
                w,
            )
        },
        eval(sel2(&c), p, w) == 1 ==> {
            &&& eval(key_rlc_cur(&c), p, w) == eval(long_even_sel2_rlc(c, r_table), p, w)
            &&& eval(difference(key_rlc_branch(&c), key_rlc_cur(&c)), p, w) == eval(
                product_of(
                    product_of(modified_node_cur(&c), key_rlc_mult_prev_level(&c)),
                    mult_diff_branch(&c),
                ),
                p,
                w,
            )
            &&& eval(key_rlc_mult_branch(&c), p, w) == eval(
                product_of(
                    product_of(key_rlc_mult_prev_level(&c), mult_diff_branch(&c)),
                    r_table[0],
                ),
                p,
                w,
            )
        },
{
    lemma_gate_parts(c, r_table, p, w);
    let g = long_even_constraints(c, r_table);
    let le = long_selector(&c, is_key_even(&c));
    lemma_long_selector_is_one(c, is_key_even(&c), p, w);
    let k = key_bytes() as int;
    assert(eval(g[0].poly, p, w) == 0);
    assert(eval(g[1].poly, p, w) == 0);
    assert(eval(g[2].poly, p, w) == 0);
    assert(eval(g[k + 3].poly, p, w) == 0);
    assert(eval(g[k + 4].poly, p, w) == 0);
    assert(eval(g[k + 5].poly, p, w) == 0);
    if eval(sel1(&c), p, w) == 1 {
        let s = product_of(le, sel1(&c));
        lemma_eval_product_of_ones(le, sel1(&c), p, w);
        lemma_gated_on(s, key_rlc_cur(&c), long_even_sel1_rlc(c, r_table), p, w);
        lemma_gated_on(
            s,
            difference(key_rlc_branch(&c), key_rlc_cur(&c)),
            product_of(
                product_of(product_of(c16(), modified_node_cur(&c)), key_rlc_mult_prev_level(&c)),
                mult_diff_branch(&c),
            ),
            p,
            w,
        );
        lemma_gated_on(
            s,
            key_rlc_mult_branch(&c),
            product_of(key_rlc_mult_prev_level(&c), mult_diff_branch(&c)),
            p,
            w,
        );
    }
    if eval(sel2(&c), p, w) == 1 {
        let s = product_of(le, sel2(&c));
        lemma_eval_product_of_ones(le, sel2(&c), p, w);
        lemma_gated_on(s, key_rlc_cur(&c), long_even_sel2_rlc(c, r_table), p, w);
        lemma_gated_on(
            s,
            difference(key_rlc_branch(&c), key_rlc_cur(&c)),
            product_of(
                product_of(modified_node_cur(&c), key_rlc_mult_prev_level(&c)),
                mult_diff_branch(&c),
            ),
            p,
            w,
        );
        lemma_gated_on(
            s,
            key_rlc_mult_branch(&c),
            product_of(product_of(key_rlc_mult_prev_level(&c), mult_diff_branch(&c)), r_table[0]),
            p,
            w,
        );
    }
}

/// At extension row C of an extension node whose key has an odd number of
/// nibbles and more than one byte, below the first level, a satisfied gate
/// sets the key RLC to the RLC of the previous level followed by the key
/// nibbles, and the branch key RLC and multiplier to add the modified child
/// nibble after them; `sel1` and `sel2` say where that nibble stands in its byte.
pub proof fn lemma_long_odd_key(c: ExtensionNodeKeyColumns, r_table: Seq<Expr>, p: int, w: Cells)
    requires
        p > 1,
        gate_satisfied(c, r_table, p, w),
        eval(not_first_level(&c), p, w) == 1,
        eval(is_account_leaf_storage_codehash_prev(&c), p, w) == 0,
        eval(is_extension_node(&c), p, w) == 1,
        eval(is_extension_c_row(&c), p, w) == 1,
        eval(is_key_odd(&c), p, w) == 1,
        eval(is_long(&c), p, w) == 1,
    ensures
        eval(sel1(&c), p, w) == 1 ==> {
            &&& eval(key_rlc_cur(&c), p, w) == eval(long_odd_sel1_rlc(c, r_table), p, w)
            &&& eval(difference(key_rlc_branch(&c), key_rlc_cur(&c)), p, w) == eval(
                product_of(
                    product_of(modified_node_cur(&c), key_rlc_mult_prev_level(&c)),
                    mult_diff_branch(&c),
                ),
                p,
                w,
            )
            &&& eval(key_rlc_mult_branch(&c), p, w) == eval(
                product_of(
                    product_of(key_rlc_mult_prev_level(&c), mult_diff_branch(&c)),
                    r_table[0],
                ),
                p,
                w,
            )
        },
        eval(sel2(&c), p, w) == 1 ==> {
            &&& eval(key_rlc_cur(&c), p, w) == eval(long_odd_sel2_rlc(c, r_table), p, w)
            &&& eval(difference(key_rlc_branch(&c), key_rlc_cur(&c)), p, w) == eval(
                product_of(
                    product_of(product_of(c16(), modified_node_cur(&c)), key_rlc_mult_prev_level(&c)),
                    mult_diff_branch(&c),
                ),
                p,
                w,
            )
            &&& eval(key_rlc_mult_branch(&c), p, w) == eval(
                product_of(key_rlc_mult_prev_level(&c), mult_diff_branch(&c)),
                p,
                w,
            )
        },
{
    lemma_gate_parts(c, r_table, p, w);
    let g = long_odd_constraints(c, r_table);
    let lo = long_selector(&c, is_key_odd(&c));
    lemma_long_selector_is_one(c, is_key_odd(&c), p, w);
    let k = key_bytes() as int;
    assert(eval(g[k].poly, p, w) == 0);
    assert(eval(g[k + 1].poly, p, w) == 0);
    assert(eval(g[k + 2].poly, p, w) == 0);
    assert(eval(g[k + 3].poly, p, w) == 0);
    assert(eval(g[k + 4].poly, p, w) == 0);
    assert(eval(g[k + 5].poly, p, w) == 0);
    if eval(sel1(&c), p, w) == 1 {
        let s = product_of(lo, sel1(&c));
        lemma_eval_product_of_ones(lo, sel1(&c), p, w);
        lemma_gated_on(s, key_rlc_cur(&c), long_odd_sel1_rlc(c, r_table), p, w);
        lemma_gated_on(
            s,
            difference(key_rlc_branch(&c), key_rlc_cur(&c)),
            product_of(
                product_of(modified_node_cur(&c), key_rlc_mult_prev_level(&c)),
                mult_diff_branch(&c),
            ),
            p,
            w,
        );
        lemma_gated_on(
            s,
            key_rlc_mult_branch(&c),
            product_of(product_of(key_rlc_mult_prev_level(&c), mult_diff_branch(&c)), r_table[0]),
            p,
            w,
        );
    }
    if eval(sel2(&c), p, w) == 1 {
        let s = product_of(lo, sel2(&c));
        lemma_eval_product_of_ones(lo, sel2(&c), p, w);
        lemma_gated_on(s, key_rlc_cur(&c), long_odd_sel2_rlc(c, r_table), p, w);
        lemma_gated_on(
            s,
            difference(key_rlc_branch(&c), key_rlc_cur(&c)),
            product_of(
                product_of(product_of(c16(), modified_node_cur(&c)), key_rlc_mult_prev_level(&c)),
                mult_diff_branch(&c),
            ),
            p,
            w,
        );
        lemma_gated_on(
            s,
            key_rlc_mult_branch(&c),
            product_of(key_rlc_mult_prev_level(&c), mult_diff_branch(&c)),
            p,
            w,
        );
    }
}

/// At extension row C of an extension node whose key is one byte, below the
/// first level, a satisfied gate sets the key RLC to the RLC of the previous
/// level followed by the key nibble, and the branch key RLC and multiplier to
/// add the modified child nibble after it.
pub proof fn lemma_short_key(c: ExtensionNodeKeyColumns, r_table: Seq<Expr>, p: int, w: Cells)
    requires
        p > 1,
        gate_satisfied(c, r_table, p, w),
        eval(not_first_level(&c), p, w) == 1,
        eval(is_account_leaf_storage_codehash_prev(&c), p, w) == 0,
        eval(is_extension_node(&c), p, w) == 1,
        eval(is_extension_c_row(&c), p, w) == 1,
        eval(is_short(&c), p, w) == 1,
    ensures
        eval(sel1(&c), p, w) == 1 ==> {
            &&& eval(key_rlc_cur(&c), p, w) == eval(short_sel1_rlc(&c), p, w)
            &&& eval(difference(key_rlc_branch(&c), key_rlc_cur(&c)), p, w) == eval(
                product_of(
                    product_of(product_of(c16(), modified_node_cur(&c)), key_rlc_mult_prev_level(&c)),
                    r_table[0],
                ),
                p,
                w,
            )
            &&& eval(key_rlc_mult_branch(&c), p, w) == eval(
                product_of(key_rlc_mult_prev_level(&c), r_table[0]),
                p,
                w,
            )
        },
        eval(sel2(&c), p, w) == 1 ==> {
            &&& eval(key_rlc_cur(&c), p, w) == eval(short_sel2_rlc(&c), p, w)
            &&& eval(difference(key_rlc_branch(&c), key_rlc_cur(&c)), p, w) == eval(
                product_of(modified_node_cur(&c), key_rlc_mult_prev_level(&c)),
                p,
                w,
            )
            &&& eval(key_rlc_mult_branch(&c), p, w) == eval(
                product_of(key_rlc_mult_prev_level(&c), r_table[0]),
                p,
                w,
            )
        },
{
    lemma_gate_parts(c, r_table, p, w);
    let g = short_constraints(c, r_table);
    let sh = short_selector(&c);
    lemma_short_selector_is_one(c, p, w);
    assert(eval(g[0].poly, p, w) == 0);
    assert(eval(g[1].poly, p, w) == 0);
    assert(eval(g[2].poly, p, w) == 0);
    assert(eval(g[3].poly, p, w) == 0);
    assert(eval(g[4].poly, p, w) == 0);
    assert(eval(g[5].poly, p, w) == 0);
    if eval(sel1(&c), p, w) == 1 {
        let s = product_of(sh, sel1(&c));
        lemma_eval_product_of_ones(sh, sel1(&c), p, w);
        lemma_gated_on(s, key_rlc_cur(&c), short_sel1_rlc(&c), p, w);
        lemma_gated_on(
            s,
            difference(key_rlc_branch(&c), key_rlc_cur(&c)),
            product_of(
                product_of(product_of(c16(), modified_node_cur(&c)), key_rlc_mult_prev_level(&c)),
                r_table[0],
            ),
            p,
            w,
        );
        lemma_gated_on(
            s,
            key_rlc_mult_branch(&c),
            product_of(key_rlc_mult_prev_level(&c), r_table[0]),
            p,
            w,
        );
    }
    if eval(sel2(&c), p, w) == 1 {
        let s = product_of(sh, sel2(&c));
        lemma_eval_product_of_ones(sh, sel2(&c), p, w);
        lemma_gated_on(s, key_rlc_cur(&c), short_sel2_rlc(&c), p, w);
        lemma_gated_on(
            s,
            difference(key_rlc_branch(&c), key_rlc_cur(&c)),
            product_of(modified_node_cur(&c), key_rlc_mult_prev_level(&c)),
            p,
            w,
        );
        lemma_gated_on(
            s,
            key_rlc_mult_branch(&c),
            product_of(key_rlc_mult_prev_level(&c), r_table[0]),
            p,
            w,
        );
    }
}

/// At extension row C of an extension node at the first level of an account
/// proof (below the first row of the table, the row above not a branch row),
/// a satisfied gate sets the key RLC to the key of the extension node, and,
/// for a key of one byte, the branch key RLC to add the modified child nibble
/// after it and the branch multiplier to the first power of the randomness.
pub proof fn lemma_account_first_level_key(
    c: ExtensionNodeKeyColumns,
    r_table: Seq<Expr>,
    p: int,
    w: Cells,
)
    requires
        p > 1,
        gate_satisfied(c, r_table, p, w),
        eval(q_not_first(&c), p, w) == 1,
        eval(is_branch_init_prev(&c), p, w) == 0,
        eval(is_branch_child_prev(&c), p, w) == 0,
        eval(not_first_level(&c), p, w) == 0,
        eval(is_extension_node(&c), p, w) == 1,
        eval(is_extension_c_row(&c), p, w) == 1,
    ensures
        eval(is_key_even(&c), p, w) == 1 && eval(is_long(&c), p, w) == 1 ==> eval(
            key_rlc_cur(&c),
            p,
            w,
        ) == eval(first_level_long_even_rlc(c, r_table), p, w),
        eval(is_short(&c), p, w) == 1 ==> {
            &&& eval(key_rlc_cur(&c), p, w) == eval(first_level_short_ext_rlc(&c), p, w)
            &&& eval(key_rlc_branch(&c), p, w) == eval(first_level_short_branch_rlc(&c), p, w)
            &&& eval(key_rlc_mult_branch(&c), p, w) == eval(r_table[0], p, w)
        },
{
    lemma_gate_parts(c, r_table, p, w);
    let g = first_level_constraints(c, r_table);
    lemma_eval_one_minus(is_branch_init_prev(&c), p, w);
    lemma_eval_one_minus(is_branch_child_prev(&c), p, w);
    lemma_eval_one_minus(not_first_level(&c), p, w);
    let a = product_of(q_not_first(&c), difference(one(), is_branch_init_prev(&c)));
    lemma_eval_product_of_ones(q_not_first(&c), difference(one(), is_branch_init_prev(&c)), p, w);
    let b = product_of(a, difference(one(), is_branch_child_prev(&c)));
    lemma_eval_product_of_ones(a, difference(one(), is_branch_child_prev(&c)), p, w);
    let d = product_of(b, difference(one(), not_first_level(&c)));
    lemma_eval_product_of_ones(b, difference(one(), not_first_level(&c)), p, w);
    let e = product_of(d, is_extension_node(&c));
    lemma_eval_product_of_ones(d, is_extension_node(&c), p, w);
    let af = account_first_selector(&c);
    lemma_eval_product_of_ones(e, is_extension_c_row(&c), p, w);
    assert(eval(g[0].poly, p, w) == 0);
    assert(eval(g[1].poly, p, w) == 0);
    assert(eval(g[2].poly, p, w) == 0);
    assert(eval(g[3].poly, p, w) == 0);
    if eval(is_key_even(&c), p, w) == 1 && eval(is_long(&c), p, w) == 1 {
        lemma_eval_product_of_ones(af, is_key_even(&c), p, w);
        lemma_eval_product_of_ones(product_of(af, is_key_even(&c)), is_long(&c), p, w);
        lemma_gated_on(
            product_of(product_of(af, is_key_even(&c)), is_long(&c)),
            first_level_long_even_rlc(c, r_table),
            key_rlc_cur(&c),
            p,
            w,
        );
    }
    if eval(is_short(&c), p, w) == 1 {
        let s = product_of(af, is_short(&c));
        lemma_eval_product_of_ones(af, is_short(&c), p, w);
        lemma_gated_on(s, first_level_short_ext_rlc(&c), key_rlc_cur(&c), p, w);
        lemma_gated_on(s, first_level_short_branch_rlc(&c), key_rlc_branch(&c), p, w);
        lemma_gated_on(s, r_table[0], key_rlc_mult_branch(&c), p, w);
    }
}

/// At extension row C of an extension node at the first level of a storage
/// proof (the row above the branch is the account leaf's storage/codehash
/// row), a satisfied gate sets the key RLC to the key of the extension node,
/// and, for a key of one byte, the branch key RLC to add the modified child
/// nibble after it and the branch multiplier to the first power of the randomness.
pub proof fn lemma_storage_first_level_key(
    c: ExtensionNodeKeyColumns,
    r_table: Seq<Expr>,
    p: int,
    w: Cells,
)
    requires
        p > 1,
        gate_satisfied(c, r_table, p, w),
        eval(not_first_level(&c), p, w) == 1,
        eval(is_account_leaf_storage_codehash_prev(&c), p, w) == 1,
        eval(is_extension_node(&c), p, w) == 1,
        eval(is_extension_c_row(&c), p, w) == 1,
    ensures
        eval(is_key_even(&c), p, w) == 1 && eval(is_long(&c), p, w) == 1 ==> eval(
            key_rlc_cur(&c),
            p,
            w,
        ) == eval(first_level_long_even_rlc(c, r_table), p, w),
        eval(is_short(&c), p, w) == 1 ==> {
            &&& eval(key_rlc_cur(&c), p, w) == eval(first_level_short_ext_rlc(&c), p, w)
            &&& eval(key_rlc_branch(&c), p, w) == eval(first_level_short_branch_rlc(&c), p, w)
            &&& eval(key_rlc_mult_branch(&c), p, w) == eval(r_table[0], p, w)
        },
{
    lemma_gate_parts(c, r_table, p, w);
    let g = first_level_constraints(c, r_table);
    let a = product_of(not_first_level(&c), is_account_leaf_storage_codehash_prev(&c));
    lemma_eval_product_of_ones(not_first_level(&c), is_account_leaf_storage_codehash_prev(&c), p, w);
    let b = product_of(a, is_extension_node(&c));
    lemma_eval_product_of_ones(a, is_extension_node(&c), p, w);
    let sf = storage_first_selector(&c);
    lemma_eval_product_of_ones(b, is_extension_c_row(&c), p, w);
    assert(eval(g[4].poly, p, w) == 0);
    assert(eval(g[5].poly, p, w) == 0);
    assert(eval(g[6].poly, p, w) == 0);
    assert(eval(g[7].poly, p, w) == 0);
    if eval(is_key_even(&c), p, w) == 1 && eval(is_long(&c), p, w) == 1 {
        lemma_eval_product_of_ones(sf, is_key_even(&c), p, w);
        lemma_eval_product_of_ones(product_of(sf, is_key_even(&c)), is_long(&c), p, w);
        lemma_gated_on(
            product_of(product_of(sf, is_key_even(&c)), is_long(&c)),
            first_level_long_even_rlc(c, r_table),
            key_rlc_cur(&c),
            p,
            w,
        );
    }
    if eval(is_short(&c), p, w) == 1 {
        let s = product_of(sf, is_short(&c));
        lemma_eval_product_of_ones(sf, is_short(&c), p, w);
        lemma_gated_on(s, first_level_short_ext_rlc(&c), key_rlc_cur(&c), p, w);
        lemma_gated_on(s, first_level_short_branch_rlc(&c), key_rlc_branch(&c), p, w);
        lemma_gated_on(s, r_table[0], key_rlc_mult_branch(&c), p, w);
    }
}

/// The constraints that a byte of extension row S is sixteen times its first
/// nibble plus its second nibble hold for all cell values, over a field of odd
/// order: the first nibble is computed from the byte and the second nibble,
/// so only the range lookups hold the nibbles to `0..16`.
pub proof fn lemma_nibble_constraints_always_hold(
    name: &'static str,
    sel: Expr,
    c: ExtensionNodeKeyColumns,
    ind: int,
    p: int,
    w: Cells,
)
    requires
        p > 1,
        p % 2 == 1,
        0 <= ind < key_bytes(),
    ensures
        eval(nibble_constraint(name, sel, c, ind).poly, p, w) == 0,
{
    let poly = nibble_constraint(name, sel, c, ind).poly;
    let vs = value(s_advice_prev(&c, (ind + 1) as usize), p, w);
    let vn = value(s_advice_cur(&c, ind as usize), p, w);
    let vsel = value(sel, p, w);
    let i = value(Expr::Inverse(16), p, w);
    lemma_inverse_of_sixteen(p, w);
    assert((i * 16) % p == 1);
    let x = vs - vn;
    let y = 1 - i * 16;
    assert(y % p == 0) by {
        lemma_sub_mod_noop(1, i * 16, p);
        lemma_small_mod(1nat, p as nat);
        lemma_small_mod(0nat, p as nat);
    }
    let inner = vs - (x * i) * 16 - vn;
    assert(inner == x * y) by (nonlinear_arith)
        requires
            x == vs - vn,
            y == 1 - i * 16,
            inner == vs - (x * i) * 16 - vn,
    ;
    let s_cell = s_advice_prev(&c, (ind + 1) as usize);
    let n_cell = s_advice_cur(&c, ind as usize);
    assert(value(Expr::Negated(Box::new(n_cell)), p, w) == -vn);
    assert(value(difference(s_cell, n_cell), p, w) == x);
    let first = first_nibble(&c, ind as usize);
    assert(value(first, p, w) == x * i);
    assert(value(c16(), p, w) == 16);
    assert(value(product_of(first, c16()), p, w) == (x * i) * 16);
    assert(value(Expr::Negated(Box::new(product_of(first, c16()))), p, w) == -((x * i) * 16));
    let lhs = difference(s_cell, product_of(first, c16()));
    assert(value(lhs, p, w) == vs - (x * i) * 16);
    assert(value(difference(lhs, n_cell), p, w) == inner);
    assert(value(poly, p, w) == vsel * inner);
    assert((x * y) % p == 0) by {
        lemma_mul_mod_noop_right(x, y, p);
        lemma_small_mod(0nat, p as nat);
    }
    assert((vsel * (x * y)) % p == 0) by {
        lemma_mul_mod_noop_right(vsel, x * y, p);
        lemma_small_mod(0nat, p as nat);
    }
    lemma_eval_is_value(poly, p, w);
}

/// Over a field of odd order, where byte `ind + 1` of extension row S equals
/// `16 · f` plus the second nibble in cell `ind` of extension row C, the
/// first nibble polynomial has the value `f`.
pub proof fn lemma_first_nibble_value(c: ExtensionNodeKeyColumns, ind: int, f: int, p: int, w: Cells)
    requires
        p > 1,
        p % 2 == 1,
        0 <= ind < key_bytes(),
        0 <= f < p,
        value(s_advice_prev(&c, (ind + 1) as usize), p, w) % p == (16 * f + value(
            s_advice_cur(&c, ind as usize),
            p,
            w,
        )) % p,
    ensures
        eval(first_nibble(&c, ind as usize), p, w) == f,
{
    let vs = value(s_advice_prev(&c, (ind + 1) as usize), p, w);
    let vn = value(s_advice_cur(&c, ind as usize), p, w);
    let i = value(Expr::Inverse(16), p, w);
    lemma_inverse_of_sixteen(p, w);
    let x = vs - vn;
    assert(x % p == (16 * f) % p) by {
        lemma_sub_mod_noop(vs, vn, p);
        lemma_sub_mod_noop(16 * f + vn, vn, p);
    }
    assert(value(Expr::Negated(Box::new(s_advice_cur(&c, ind as usize))), p, w) == -vn);
    assert(value(
        difference(s_advice_prev(&c, (ind + 1) as usize), s_advice_cur(&c, ind as usize)),
        p,
        w,
    ) == x);
    assert(value(first_nibble(&c, ind as usize), p, w) == x * i);
    assert((i * 16) % p == 1);
    assert((x * i) % p == ((16 * f) * i) % p) by {
        lemma_mul_mod_noop_left(x, i, p);
        lemma_mul_mod_noop_left(16 * f, i, p);
    }
    assert((16 * f) * i == f * (i * 16)) by (nonlinear_arith);
    assert((f * (i * 16)) % p == f) by {
        lemma_mul_mod_noop_right(f, i * 16, p);
        lemma_small_mod(f as nat, p as nat);
    }
    lemma_eval_is_value(first_nibble(&c, ind as usize), p, w);
}

proof fn lemma_lookup_long_selector_is_zero(c: ExtensionNodeKeyColumns, parity: Expr, p: int, w: Cells)
    requires
        p > 0,
        eval(is_long(&c), p, w) == 0 || eval(is_extension_node(&c), p, w) == 0 || eval(
            is_extension_c_row(&c),
            p,
            w,
        ) == 0,
    ensures
        eval(lookup_long_selector(&c, parity), p, w) == 0,
{
    let a = product_of(
        difference(one(), is_account_leaf_storage_codehash_prev(&c)),
        is_extension_node(&c),
    );
    let b = product_of(a, is_extension_c_row(&c));
    let d = product_of(b, parity);
    if eval(is_extension_node(&c), p, w) == 0 {
        lemma_eval_product_with_zero(
            difference(one(), is_account_leaf_storage_codehash_prev(&c)),
            is_extension_node(&c),
            p,
            w,
        );
        lemma_eval_product_with_zero(a, is_extension_c_row(&c), p, w);
    }
    if eval(is_extension_c_row(&c), p, w) == 0 {
        lemma_eval_product_with_zero(a, is_extension_c_row(&c), p, w);
    }
    if eval(b, p, w) == 0 {
        lemma_eval_product_with_zero(b, parity, p, w);
        lemma_eval_product_with_zero(d, is_long(&c), p, w);
    }
    if eval(is_long(&c), p, w) == 0 {
        lemma_eval_product_with_zero(d, is_long(&c), p, w);
    }
}

/// Off the extension row C of an extension node with a long key, every input
/// of every lookup but the table tag is zero, so that the lookups hold for
/// any table that holds the zero entry of each tag.
pub proof fn lemma_lookups_vanish_off_long_keys(c: ExtensionNodeKeyColumns, p: int, w: Cells)
    requires
        p > 0,
        eval(is_long(&c), p, w) == 0 || eval(is_extension_node(&c), p, w) == 0 || eval(
            is_extension_c_row(&c),
            p,
            w,
        ) == 0,
    ensures
        forall|i: int, j: int|
            0 <= i < lookups(c).len() && 1 <= j < lookups(c)[i].len() ==> eval(
                #[trigger] lookups(c)[i][j].0,
                p,
                w,
            ) == 0,
{
    let le = lookup_long_selector(&c, is_key_even(&c));
    let lo = lookup_long_selector(&c, is_key_odd(&c));
    lemma_lookup_long_selector_is_zero(c, is_key_even(&c), p, w);
    lemma_lookup_long_selector_is_zero(c, is_key_odd(&c), p, w);
    lemma_eval_product_with_zero(le, sel1(&c), p, w);
    lemma_eval_product_with_zero(le, sel2(&c), p, w);
    lemma_eval_product_with_zero(lo, sel1(&c), p, w);
    lemma_eval_product_with_zero(lo, sel2(&c), p, w);
    lemma_small_mod(0nat, p as nat);
    let sum = long_selectors_sum(c);
    let t1 = sum_of(product_of(le, sel1(&c)), product_of(le, sel2(&c)));
    assert(eval(t1, p, w) == 0);
    let t2 = sum_of(t1, product_of(lo, sel1(&c)));
    assert(eval(t2, p, w) == 0);
    assert(eval(sum, p, w) == 0);
    let nsel = nibble_lookup_selector(c);
    assert(eval(nsel, p, w) == 0);
    let m = mult_diff_lookup(c);
    lemma_eval_product_with_zero(
        sum,
        difference(difference(s_rlp2_prev(&c), c128()), one()),
        p,
        w,
    );
    lemma_eval_product_with_zero(sum, mult_diff_branch(&c), p, w);
    assert forall|i: int, j: int|
        0 <= i < lookups(c).len() && 1 <= j < lookups(c)[i].len() implies eval(
        #[trigger] lookups(c)[i][j].0,
        p,
        w,
    ) == 0 by {
        let k = key_bytes() as int;
        if i == 0 {
            assert(lookups(c)[i] == m);
        } else if i <= k {
            let l = second_nibble_lookup(c, i - 1);
            assert(lookups(c)[i] == l);
            lemma_eval_product_with_zero(nsel, s_advice_cur(&c, (i - 1) as usize), p, w);
        } else {
            let l = first_nibble_lookup(c, i - 1 - k);
            assert(lookups(c)[i] == l);
            lemma_eval_product_with_zero(nsel, first_nibble(&c, (i - 1 - k) as usize), p, w);
        }
    }
}

proof fn lemma_nibble_lookup_inputs(c: ExtensionNodeKeyColumns, p: int, w: Cells)
    requires
        p > 1,
        eval(nibble_lookup_selector(c), p, w) == 0 || eval(nibble_lookup_selector(c), p, w) == 1,
    ensures
        forall|ind: int|
            0 <= ind < key_bytes() ==> eval(#[trigger] second_nibble_lookup(c, ind)[1].0, p, w)
                == if eval(nibble_lookup_selector(c), p, w) == 1 {
                eval(s_advice_cur(&c, ind as usize), p, w)
            } else {
                0
            },
        forall|ind: int|
            0 <= ind < key_bytes() ==> eval(#[trigger] first_nibble_lookup(c, ind)[1].0, p, w)
                == if eval(nibble_lookup_selector(c), p, w) == 1 {
                eval(first_nibble(&c, ind as usize), p, w)
            } else {
                0
            },
{
    let nsel = nibble_lookup_selector(c);
    assert forall|ind: int| 0 <= ind < key_bytes() implies eval(
        #[trigger] second_nibble_lookup(c, ind)[1].0,
        p,
        w,
    ) == if eval(nsel, p, w) == 1 {
        eval(s_advice_cur(&c, ind as usize), p, w)
    } else {
        0
    } by {
        if eval(nsel, p, w) == 1 {
            lemma_eval_product_with_one(nsel, s_advice_cur(&c, ind as usize), p, w);
        } else {
            lemma_eval_product_with_zero(nsel, s_advice_cur(&c, ind as usize), p, w);
        }
    }
    assert forall|ind: int| 0 <= ind < key_bytes() implies eval(
        #[trigger] first_nibble_lookup(c, ind)[1].0,
        p,
        w,
    ) == if eval(nsel, p, w) == 1 {
        eval(first_nibble(&c, ind as usize), p, w)
    } else {
        0
    } by {
        if eval(nsel, p, w) == 1 {
            lemma_eval_product_with_one(nsel, first_nibble(&c, ind as usize), p, w);
        } else {
            lemma_eval_product_with_zero(nsel, first_nibble(&c, ind as usize), p, w);
        }
    }
}

proof fn lemma_eval_product_of_flags(a: Expr, b: Expr, p: int, w: Cells)
    requires
        p > 1,
        eval(a, p, w) == 0 || eval(a, p, w) == 1,
        eval(b, p, w) == 0 || eval(b, p, w) == 1,
    ensures
        eval(product_of(a, b), p, w) == if eval(a, p, w) == 1 && eval(b, p, w) == 1 {
            1int
        } else {
            0
        },
{
    if eval(a, p, w) == 1 && eval(b, p, w) == 1 {
        lemma_eval_product_of_ones(a, b, p, w);
    } else {
        lemma_eval_product_with_zero(a, b, p, w);
    }
}

/// At extension row C of an extension node with a long key (outside the first
/// level of a storage proof), where exactly one parity flag and exactly one of
/// `sel1`, `sel2` is set, the lookups take the key length (`s_rlp2 - 129`) and
/// `mult_diff` to the table of powers of the randomness, and, where the key
/// is even with `sel2` or odd with `sel1`, take each nibble to the range table;
/// otherwise the nibble lookups take zero.
pub proof fn lemma_lookups_on_long_keys(c: ExtensionNodeKeyColumns, p: int, w: Cells)
    requires
        p > 1,
        eval(is_account_leaf_storage_codehash_prev(&c), p, w) == 0,
        eval(is_extension_node(&c), p, w) == 1,
        eval(is_extension_c_row(&c), p, w) == 1,
        eval(is_long(&c), p, w) == 1,
        eval(is_key_even(&c), p, w) == 0 && eval(is_key_odd(&c), p, w) == 1 || eval(
            is_key_even(&c),
            p,
            w,
        ) == 1 && eval(is_key_odd(&c), p, w) == 0,
        eval(sel1(&c), p, w) == 0 && eval(sel2(&c), p, w) == 1 || eval(sel1(&c), p, w) == 1
            && eval(sel2(&c), p, w) == 0,
    ensures
        eval(mult_diff_lookup(c)[1].0, p, w) == eval(
            difference(difference(s_rlp2_prev(&c), c128()), one()),
            p,
            w,
        ),
        eval(mult_diff_lookup(c)[2].0, p, w) == eval(mult_diff_branch(&c), p, w),
        forall|ind: int|
            0 <= ind < key_bytes() ==> eval(#[trigger] second_nibble_lookup(c, ind)[1].0, p, w)
                == if eval(is_key_even(&c), p, w) == eval(sel2(&c), p, w) {
                eval(s_advice_cur(&c, ind as usize), p, w)
            } else {
                0
            },
        forall|ind: int|
            0 <= ind < key_bytes() ==> eval(#[trigger] first_nibble_lookup(c, ind)[1].0, p, w)
                == if eval(is_key_even(&c), p, w) == eval(sel2(&c), p, w) {
                eval(first_nibble(&c, ind as usize), p, w)
            } else {
                0
            },
{
    lemma_small_mod(0nat, p as nat);
    lemma_small_mod(1nat, p as nat);
    // a long-key selector of the lookups has the value of its parity flag
    let na = difference(one(), is_account_leaf_storage_codehash_prev(&c));
    lemma_eval_one_minus(is_account_leaf_storage_codehash_prev(&c), p, w);
    let a = product_of(na, is_extension_node(&c));
    lemma_eval_product_of_ones(na, is_extension_node(&c), p, w);
    let b = product_of(a, is_extension_c_row(&c));
    lemma_eval_product_of_ones(a, is_extension_c_row(&c), p, w);
    let even = is_key_even(&c);
    let odd = is_key_odd(&c);
    lemma_eval_product_with_one(b, even, p, w);
    lemma_eval_product_with_one(b, odd, p, w);
    lemma_eval_range(is_long(&c), p, w);
    let le = lookup_long_selector(&c, even);
    let lo = lookup_long_selector(&c, odd);
    assert(eval(le, p, w) == eval(even, p, w)) by {
        if eval(even, p, w) == 1 {
            lemma_eval_product_of_ones(product_of(b, even), is_long(&c), p, w);
        } else {
            lemma_eval_product_with_zero(product_of(b, even), is_long(&c), p, w);
        }
    }
    assert(eval(lo, p, w) == eval(odd, p, w)) by {
        if eval(odd, p, w) == 1 {
            lemma_eval_product_of_ones(product_of(b, odd), is_long(&c), p, w);
        } else {
            lemma_eval_product_with_zero(product_of(b, odd), is_long(&c), p, w);
        }
    }
    let les1 = product_of(le, sel1(&c));
    let les2 = product_of(le, sel2(&c));
    let los1 = product_of(lo, sel1(&c));
    let los2 = product_of(lo, sel2(&c));
    // each of the four products is the conjunction of its two flags
    lemma_eval_product_of_flags(le, sel1(&c), p, w);
    lemma_eval_product_of_flags(le, sel2(&c), p, w);
    lemma_eval_product_of_flags(lo, sel1(&c), p, w);
    lemma_eval_product_of_flags(lo, sel2(&c), p, w);
    assert(eval(les1, p, w) == if eval(even, p, w) == 1 && eval(sel1(&c), p, w) == 1 { 1int } else { 0 });
    assert(eval(les2, p, w) == if eval(even, p, w) == 1 && eval(sel2(&c), p, w) == 1 { 1int } else { 0 });
    assert(eval(los1, p, w) == if eval(odd, p, w) == 1 && eval(sel1(&c), p, w) == 1 { 1int } else { 0 });
    assert(eval(los2, p, w) == if eval(odd, p, w) == 1 && eval(sel2(&c), p, w) == 1 { 1int } else { 0 });
    let t1 = sum_of(les1, les2);
    lemma_eval_sum_with_zero(les1, les2, p, w);
    let t2 = sum_of(t1, los1);
    lemma_eval_sum_with_zero(t1, los1, p, w);
    lemma_eval_sum_with_zero(t2, los2, p, w);
    let sum = long_selectors_sum(c);
    assert(eval(sum, p, w) == 1);
    let key_len = difference(difference(s_rlp2_prev(&c), c128()), one());
    lemma_eval_product_with_one(sum, key_len, p, w);
    lemma_eval_product_with_one(sum, mult_diff_branch(&c), p, w);
    let nsel = nibble_lookup_selector(c);
    lemma_eval_sum_with_zero(les2, los1, p, w);
    let on = eval(is_key_even(&c), p, w) == eval(sel2(&c), p, w);
    assert(eval(nsel, p, w) == if on { 1int } else { 0 });
    lemma_nibble_lookup_inputs(c, p, w);
}

/// The key RLC that the nibble-wise RLC of the first `n` bytes after the
/// first one stands for, from `start`, where `f(ind)` is the first nibble of
/// byte `ind + 1` of extension row S: each step adds the first nibble times
/// the multiplier, and sixteen times the second nibble (cell `ind` of
/// extension row C) times the multiplier times `r_table[ind]`.
pub open spec fn nibble_rlc_target(
    c: ExtensionNodeKeyColumns,
    start: int,
    n: nat,
    r_table: Seq<Expr>,
    f: spec_fn(int) -> int,
    p: int,
    w: Cells,
) -> int
    decreases n,
{
    if n == 0 {
        start
    } else {
        let ind = n - 1;
        let mult = value(key_rlc_mult_prev_level(&c), p, w);
        nibble_rlc_target(c, start, (n - 1) as nat, r_table, f, p, w) + f(ind) * mult + value(
            s_advice_cur(&c, ind as usize),
            p,
            w,
        ) * 16 * mult * value(r_table[ind], p, w)
    }
}

/// Over a field of odd order, where each byte `ind + 1` of extension row S is
/// `16 · f(ind)` plus the second nibble in cell `ind` of extension row C, the
/// nibble-wise key RLC has the value of the key RLC of those nibbles.
pub proof fn lemma_nibble_rlc_value(
    c: ExtensionNodeKeyColumns,
    start: Expr,
    n: nat,
    r_table: Seq<Expr>,
    f: spec_fn(int) -> int,
    p: int,
    w: Cells,
)
    requires
        p > 1,
        p % 2 == 1,
        n <= key_bytes(),
        forall|ind: int|
            0 <= ind < n ==> 0 <= #[trigger] f(ind) < p && value(
                s_advice_prev(&c, (ind + 1) as usize),
                p,
                w,
            ) % p == (16 * f(ind) + value(s_advice_cur(&c, ind as usize), p, w)) % p,
    ensures
        eval(nibble_rlc(c, start, n, r_table), p, w) == nibble_rlc_target(
            c,
            value(start, p, w),
            n,
            r_table,
            f,
            p,
            w,
        ) % p,
    decreases n,
{
    if n == 0 {
        lemma_eval_is_value(start, p, w);
    } else {
        let ind = n - 1;
        lemma_nibble_rlc_value(c, start, (n - 1) as nat, r_table, f, p, w);
        let prev = nibble_rlc(c, start, (n - 1) as nat, r_table);
        let tp = nibble_rlc_target(c, value(start, p, w), (n - 1) as nat, r_table, f, p, w);
        let k = key_rlc_mult_prev_level(&c);
        let vk = value(k, p, w);
        let first = first_nibble(&c, ind as usize);
        let fi = f(ind);
        lemma_first_nibble_value(c, ind, fi, p, w);
        // the first nibble term
        let a = product_of(first, k);
        lemma_eval_is_value(k, p, w);
        assert(eval(a, p, w) == (fi * vk) % p) by {
            lemma_mul_mod_noop_right(fi, vk, p);
        }
        // the second nibble term
        let s = s_advice_cur(&c, ind as usize);
        let b = product_of(product_of(product_of(s, c16()), k), r_table[ind]);
        let vb = value(s, p, w) * 16 * vk * value(r_table[ind], p, w);
        assert(value(c16(), p, w) == 16);
        assert(value(product_of(s, c16()), p, w) == value(s, p, w) * 16);
        assert(value(product_of(product_of(s, c16()), k), p, w) == value(s, p, w) * 16 * vk);
        assert(value(b, p, w) == vb);
        lemma_eval_is_value(b, p, w);
        // the sum of the three
        assert(nibble_rlc(c, start, n, r_table) == sum_of(sum_of(prev, a), b));
        assert(eval(prev, p, w) == tp % p);
        assert(eval(b, p, w) == vb % p);
        assert(eval(sum_of(prev, a), p, w) == (tp + fi * vk) % p) by {
            lemma_add_mod_noop(tp, fi * vk, p);
        }
        assert(eval(sum_of(sum_of(prev, a), b), p, w) == (tp + fi * vk + vb) % p) by {
            lemma_add_mod_noop(tp + fi * vk, vb, p);
        }
        assert(nibble_rlc_target(c, value(start, p, w), n, r_table, f, p, w) == tp + fi * vk + vb);
    }
}

} // verus!
