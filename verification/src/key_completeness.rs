//! Cell values on which every polynomial of the extension-node key gate is zero.
use vstd::prelude::*;
use crate::expr::{
    Expr, Cells, eval, value, sum_of, difference, product_of, lemma_eval_is_value, lemma_eval_one_minus,
    lemma_eval_product_of_ones,
};
use crate::key_cells::{
    ExtensionNodeKeyColumns, is_branch_child_prev, is_key_even, is_key_odd, sel1, sel2,
    is_extension_s_row, is_extension_c_row, gated, branch_children_selector,
    not_extension_selector, account_first_selector, storage_first_selector, long_selector,
    short_selector, s_advice_prev, s_advice_cur, first_nibble, c16, not_first_level,
    is_account_leaf_storage_codehash_prev, is_extension_node, is_long, is_short, key_rlc_cur,
    key_rlc_branch, key_rlc_mult_branch, key_rlc_mult_prev_level, modified_node_cur,
    mult_diff_branch, long_even_sel1_rlc, long_odd_sel2_rlc, long_odd_sel1_rlc, long_even_sel2_rlc,
    one, q_not_first, is_branch_init_prev, is_branch_child_cur, key_rlc_prev, key_rlc_mult_prev,
    key_rlc_mult_cur, mult_diff_cur, mult_diff_prev, key_rlc_prev_level, s_rlp2_prev,
    short_sel1_rlc, first_level_short_ext_rlc, first_level_short_branch_rlc,
    first_level_long_even_rlc,
};
use crate::extension_node_key::{
    Constraint, key_bytes, branch_children_constraints, not_extension_constraints,
    first_level_constraints, long_even_constraints, long_odd_constraints, short_constraints,
    nibble_constraint,
};
use crate::key_laws::{
    satisfied, gate_satisfied, nibble_rlc_target, lemma_gated_on, lemma_gated_off,
    lemma_nibble_constraints_always_hold, lemma_long_selector_is_one, lemma_short_selector_is_one,
};
use crate::key_values::{
    cell, row_s_sum, lemma_satisfied_join, lemma_named_cell_values, lemma_long_even_sel1_rlc_value,
    lemma_long_odd_sel2_rlc_value, lemma_long_odd_sel1_rlc_value, lemma_long_even_sel2_rlc_value,
    lemma_first_level_long_even_rlc_value,
};

verus! {

/// Some factor of the left-nested product `e` has the value zero.
pub open spec fn has_zero_factor(e: Expr, p: int, w: Cells) -> bool
    decreases e,
{
    match e {
        Expr::Product(a, b) => has_zero_factor(*a, p, w) || eval(*b, p, w) == 0,
        _ => eval(e, p, w) == 0,
    }
}

/// A product with a factor of value zero has the value zero.
pub proof fn lemma_zero_factor(e: Expr, p: int, w: Cells)
    requires
        p > 0,
        has_zero_factor(e, p, w),
    ensures
        eval(e, p, w) == 0,
    decreases e,
{
    vstd::arithmetic::div_mod::lemma_small_mod(0nat, p as nat);
    match e {
        Expr::Product(a, b) => {
            if has_zero_factor(*a, p, w) {
                lemma_zero_factor(*a, p, w);
            }
        },
        _ => {},
    }
}

/// Every polynomial of a list vanishes where each has a factor of value zero.
pub proof fn lemma_all_have_zero_factor(g: Seq<Constraint>, p: int, w: Cells)
    requires
        p > 0,
        forall|i: int| 0 <= i < g.len() ==> has_zero_factor(#[trigger] g[i].poly, p, w),
    ensures
        satisfied(g, p, w),
{
    assert forall|i: int| 0 <= i < g.len() implies eval(#[trigger] g[i].poly, p, w) == 0 by {
        lemma_zero_factor(g[i].poly, p, w);
    }
}

/// Where the selector of `sel · (x - y)` has the value one and `x`, `y` have
/// the same value modulo `p`, the polynomial vanishes.
pub proof fn lemma_gated_holds(sel: Expr, x: Expr, y: Expr, p: int, w: Cells)
    requires
        p > 0,
        eval(sel, p, w) == 1,
        value(x, p, w) % p == value(y, p, w) % p,
    ensures
        eval(gated(sel, x, y), p, w) == 0,
{
    lemma_eval_is_value(x, p, w);
    lemma_eval_is_value(y, p, w);
    lemma_gated_on(sel, x, y, p, w);
}

/// The branch child constraints vanish where their selector has a zero factor.
proof fn lemma_branch_children_off(c: ExtensionNodeKeyColumns, p: int, w: Cells)
    requires
        p > 0,
        has_zero_factor(branch_children_selector(&c), p, w),
    ensures
        satisfied(branch_children_constraints(c), p, w),
{
    lemma_all_have_zero_factor(branch_children_constraints(c), p, w);
}

/// The constraints of branches without extension node vanish where both their
/// selectors have a zero factor.
proof fn lemma_not_extension_off(c: ExtensionNodeKeyColumns, p: int, w: Cells)
    requires
        p > 0,
        has_zero_factor(not_extension_selector(&c, is_extension_s_row(&c)), p, w),
        has_zero_factor(not_extension_selector(&c, is_extension_c_row(&c)), p, w),
    ensures
        satisfied(not_extension_constraints(c), p, w),
{
    lemma_all_have_zero_factor(not_extension_constraints(c), p, w);
}

/// The first-level constraints vanish where both first-level selectors have a zero factor.
proof fn lemma_first_level_off(c: ExtensionNodeKeyColumns, r_table: Seq<Expr>, p: int, w: Cells)
    requires
        p > 0,
        has_zero_factor(account_first_selector(&c), p, w),
        has_zero_factor(storage_first_selector(&c), p, w),
    ensures
        satisfied(first_level_constraints(c, r_table), p, w),
{
    reveal_with_fuel(has_zero_factor, 3);
    lemma_all_have_zero_factor(first_level_constraints(c, r_table), p, w);
}

/// The short-key constraints vanish where both of their selectors have a zero factor.
proof fn lemma_short_off(c: ExtensionNodeKeyColumns, r_table: Seq<Expr>, p: int, w: Cells)
    requires
        p > 0,
        has_zero_factor(product_of(short_selector(&c), sel1(&c)), p, w),
        has_zero_factor(product_of(short_selector(&c), sel2(&c)), p, w),
    ensures
        satisfied(short_constraints(c, r_table), p, w),
{
    lemma_all_have_zero_factor(short_constraints(c, r_table), p, w);
}

/// The long-key constraints of one parity vanish where, for each nibble
/// position, either its selector has a zero factor or the three constraints
/// of that position vanish; the nibble constraints vanish in a field of odd order.
proof fn lemma_long_group(
    c: ExtensionNodeKeyColumns,
    r_table: Seq<Expr>,
    even: bool,
    p: int,
    w: Cells,
)
    requires
        p > 1,
        ({
            let g = if even { long_even_constraints(c, r_table) } else { long_odd_constraints(c, r_table) };
            let par = if even { is_key_even(&c) } else { is_key_odd(&c) };
            let ls = long_selector(&c, par);
            let k = key_bytes() as int;
            // the positions of the three sel1 and the three sel2 constraints
            let o1 = if even { 0 } else { k };
            let o2 = if even { k + 3 } else { k + 3 };
            let nib = if even { product_of(ls, sel2(&c)) } else { product_of(ls, sel1(&c)) };
            &&& has_zero_factor(product_of(ls, sel1(&c)), p, w) || (eval(g[o1].poly, p, w) == 0 && eval(
                g[o1 + 1].poly,
                p,
                w,
            ) == 0 && eval(g[o1 + 2].poly, p, w) == 0)
            &&& has_zero_factor(product_of(ls, sel2(&c)), p, w) || (eval(g[o2].poly, p, w) == 0 && eval(
                g[o2 + 1].poly,
                p,
                w,
            ) == 0 && eval(g[o2 + 2].poly, p, w) == 0)
            &&& has_zero_factor(nib, p, w) || p % 2 == 1
        }),
    ensures
        satisfied(if even { long_even_constraints(c, r_table) } else { long_odd_constraints(c, r_table) }, p, w),
{
    let g = if even { long_even_constraints(c, r_table) } else { long_odd_constraints(c, r_table) };
    let par = if even { is_key_even(&c) } else { is_key_odd(&c) };
    let ls = long_selector(&c, par);
    let k = key_bytes() as int;
    let s1 = product_of(ls, sel1(&c));
    let s2 = product_of(ls, sel2(&c));
    let nib = if even { s2 } else { s1 };
    let name = if even {
        "long even sel2 nibble correspond to byte"
    } else {
        "long odd sel1 nibble correspond to byte"
    };
    let nstart = if even { 3 } else { 0int };
    assert forall|i: int| 0 <= i < g.len() implies eval(#[trigger] g[i].poly, p, w) == 0 by {
        if nstart <= i < nstart + k {
            assert(g[i] == nibble_constraint(name, nib, c, i - nstart));
            if has_zero_factor(nib, p, w) {
                lemma_zero_factor(nib, p, w);
                lemma_gated_off(
                    nib,
                    difference(
                        s_advice_prev(&c, (i - nstart + 1) as usize),
                        product_of(first_nibble(&c, (i - nstart) as usize), c16()),
                    ),
                    s_advice_cur(&c, (i - nstart) as usize),
                    p,
                    w,
                );
            } else {
                lemma_nibble_constraints_always_hold(name, nib, c, i - nstart, p, w);
            }
        } else {
            let o1 = if even { 0 } else { k };
            let sel = if o1 <= i < o1 + 3 { s1 } else { s2 };
            if has_zero_factor(sel, p, w) {
                assert(has_zero_factor(g[i].poly, p, w));
                lemma_zero_factor(g[i].poly, p, w);
            }
        }
    }
}

/// The polynomials of the chip's gate outside the long-key groups vanish at
/// extension row C of a long extension node below the first level.
proof fn lemma_long_row_others_off(c: ExtensionNodeKeyColumns, r_table: Seq<Expr>, p: int, w: Cells)
    requires
        p > 1,
        eval(not_first_level(&c), p, w) == 1,
        eval(is_account_leaf_storage_codehash_prev(&c), p, w) == 0,
        eval(is_extension_node(&c), p, w) == 1,
        eval(is_short(&c), p, w) == 0,
        eval(is_branch_child_prev(&c), p, w) == 0,
    ensures
        satisfied(branch_children_constraints(c), p, w),
        satisfied(not_extension_constraints(c), p, w),
        satisfied(first_level_constraints(c, r_table), p, w),
        satisfied(short_constraints(c, r_table), p, w),
{
    reveal_with_fuel(has_zero_factor, 8);
    lemma_eval_one_minus(is_extension_node(&c), p, w);
    lemma_eval_one_minus(not_first_level(&c), p, w);
    lemma_branch_children_off(c, p, w);
    lemma_not_extension_off(c, p, w);
    lemma_first_level_off(c, r_table, p, w);
    lemma_short_off(c, r_table, p, w);
}

/// Joins the six parts of the chip's gate.
proof fn lemma_gate_from_parts(c: ExtensionNodeKeyColumns, r_table: Seq<Expr>, p: int, w: Cells)
    requires
        satisfied(branch_children_constraints(c), p, w),
        satisfied(not_extension_constraints(c), p, w),
        satisfied(first_level_constraints(c, r_table), p, w),
        satisfied(long_even_constraints(c, r_table), p, w),
        satisfied(long_odd_constraints(c, r_table), p, w),
        satisfied(short_constraints(c, r_table), p, w),
    ensures
        gate_satisfied(c, r_table, p, w),
{
    let b = branch_children_constraints(c);
    let n = not_extension_constraints(c);
    let f = first_level_constraints(c, r_table);
    let le = long_even_constraints(c, r_table);
    let lo = long_odd_constraints(c, r_table);
    let sh = short_constraints(c, r_table);
    lemma_satisfied_join(b, n, p, w);
    lemma_satisfied_join(b + n, f, p, w);
    lemma_satisfied_join(b + n + f, le, p, w);
    lemma_satisfied_join(b + n + f + le, lo, p, w);
    lemma_satisfied_join(b + n + f + le + lo, sh, p, w);
}

/// At extension row C of an extension node whose key has an even number of
/// nibbles and more than one byte, below the first level, with the modified
/// child nibble first in its byte (`sel1 = 1`, `sel2 = 0`), and the row above
/// no branch child row: cell values with
/// - `key_rlc = key_rlc_prev_level + key_rlc_mult_prev_level · (s_S[1] + Σ_{k=2}^{31} s_S[k] · r_table[k - 2])`,
/// - `key_rlc_branch - key_rlc = 16 · modified_node · key_rlc_mult_prev_level · mult_diff`,
/// - `key_rlc_mult_branch = key_rlc_mult_prev_level · mult_diff`
///
/// (modulo `p`) make every polynomial of the chip's gate vanish.
pub proof fn lemma_long_even_sel1_gate_complete(
    c: ExtensionNodeKeyColumns,
    r_table: Seq<Expr>,
    p: int,
    w: Cells,
)
    requires
        p > 1,
        eval(not_first_level(&c), p, w) == 1,
        eval(is_account_leaf_storage_codehash_prev(&c), p, w) == 0,
        eval(is_extension_node(&c), p, w) == 1,
        eval(is_extension_c_row(&c), p, w) == 1,
        eval(is_key_even(&c), p, w) == 1,
        eval(is_key_odd(&c), p, w) == 0,
        eval(is_long(&c), p, w) == 1,
        eval(is_short(&c), p, w) == 0,
        eval(sel1(&c), p, w) == 1,
        eval(sel2(&c), p, w) == 0,
        eval(is_branch_child_prev(&c), p, w) == 0,
        cell(w, c.key_rlc, 0) % p == (cell(w, c.key_rlc, -21) + cell(w, c.key_rlc_mult, -21) * (
        cell(w, c.s_advices@[1], -1) + row_s_sum(c, 2, 32, r_table, p, w))) % p,
        (cell(w, c.key_rlc, -17) - cell(w, c.key_rlc, 0)) % p == (16 * cell(w, c.modified_node, -2)
            * cell(w, c.key_rlc_mult, -21) * cell(w, c.mult_diff, -17)) % p,
        cell(w, c.key_rlc_mult, -17) % p == (cell(w, c.key_rlc_mult, -21) * cell(w, c.mult_diff, -17))
            % p,
    ensures
        gate_satisfied(c, r_table, p, w),
{
    reveal_with_fuel(has_zero_factor, 8);
    lemma_long_row_others_off(c, r_table, p, w);
    lemma_named_cell_values(c, p, w);
    // the odd group is off
    lemma_long_group(c, r_table, false, p, w);
    // the even group with sel1
    let g = long_even_constraints(c, r_table);
    let le = long_selector(&c, is_key_even(&c));
    lemma_long_selector_is_one(c, is_key_even(&c), p, w);
    let s1 = product_of(le, sel1(&c));
    lemma_eval_product_of_ones(le, sel1(&c), p, w);
    lemma_long_even_sel1_rlc_value(c, r_table, p, w);
    lemma_eval_is_value(key_rlc_cur(&c), p, w);
    lemma_gated_on(s1, key_rlc_cur(&c), long_even_sel1_rlc(c, r_table), p, w);
    let mp = key_rlc_mult_prev_level(&c);
    lemma_gated_holds(
        s1,
        difference(key_rlc_branch(&c), key_rlc_cur(&c)),
        product_of(product_of(product_of(c16(), modified_node_cur(&c)), mp), mult_diff_branch(&c)),
        p,
        w,
    );
    lemma_gated_holds(s1, key_rlc_mult_branch(&c), product_of(mp, mult_diff_branch(&c)), p, w);
    assert(eval(g[0].poly, p, w) == 0);
    assert(eval(g[1].poly, p, w) == 0);
    assert(eval(g[2].poly, p, w) == 0);
    lemma_long_group(c, r_table, true, p, w);
    lemma_gate_from_parts(c, r_table, p, w);
}


/// At extension row C of an extension node whose key has an even number of
/// nibbles and more than one byte, below the first level, with the modified
/// child nibble second in its byte (`sel1 = 0`, `sel2 = 1`), the row above no
/// branch child row, and each byte `s_S[ind + 1]` of extension row S equal to
/// `16 · f(ind) + s_C[ind]`, over a field of odd order: cell values with
/// - `key_rlc` = the nibble-wise RLC from `key_rlc_prev_level`,
/// - `key_rlc_branch - key_rlc = modified_node · key_rlc_mult_prev_level · mult_diff`,
/// - `key_rlc_mult_branch = key_rlc_mult_prev_level · mult_diff · r_table[0]`
///
/// (modulo `p`) make every polynomial of the chip's gate vanish.
pub proof fn lemma_long_even_sel2_gate_complete(
    c: ExtensionNodeKeyColumns,
    r_table: Seq<Expr>,
    f: spec_fn(int) -> int,
    p: int,
    w: Cells,
)
    requires
        p > 1,
        p % 2 == 1,
        eval(not_first_level(&c), p, w) == 1,
        eval(is_account_leaf_storage_codehash_prev(&c), p, w) == 0,
        eval(is_extension_node(&c), p, w) == 1,
        eval(is_extension_c_row(&c), p, w) == 1,
        eval(is_key_even(&c), p, w) == 1,
        eval(is_key_odd(&c), p, w) == 0,
        eval(is_long(&c), p, w) == 1,
        eval(is_short(&c), p, w) == 0,
        eval(sel2(&c), p, w) == 1,
        eval(sel1(&c), p, w) == 0,
        eval(is_branch_child_prev(&c), p, w) == 0,
        forall|ind: int|
            0 <= ind < key_bytes() ==> 0 <= #[trigger] f(ind) < p && cell(w, c.s_advices@[ind + 1], -1)
                % p == (16 * f(ind) + cell(w, c.s_advices@[ind], 0)) % p,
        cell(w, c.key_rlc, 0) % p == nibble_rlc_target(c, cell(w, c.key_rlc, -21), key_bytes(), r_table, f, p, w)
            % p,
        (cell(w, c.key_rlc, -17) - cell(w, c.key_rlc, 0)) % p == (cell(w, c.modified_node, -2)
            * cell(w, c.key_rlc_mult, -21) * cell(w, c.mult_diff, -17)) % p,
        cell(w, c.key_rlc_mult, -17) % p == (cell(w, c.key_rlc_mult, -21) * cell(w, c.mult_diff, -17) * value(r_table[0], p, w)) % p,
    ensures
        gate_satisfied(c, r_table, p, w),
{
    reveal_with_fuel(has_zero_factor, 8);
    lemma_long_row_others_off(c, r_table, p, w);
    lemma_named_cell_values(c, p, w);
    lemma_long_group(c, r_table, false, p, w);
    let g = long_even_constraints(c, r_table);
    let k = key_bytes() as int;
    let ls = long_selector(&c, is_key_even(&c));
    lemma_long_selector_is_one(c, is_key_even(&c), p, w);
    let s = product_of(ls, sel2(&c));
    lemma_eval_product_of_ones(ls, sel2(&c), p, w);
    lemma_long_even_sel2_rlc_value(c, r_table, f, p, w);
    lemma_eval_is_value(key_rlc_cur(&c), p, w);
    lemma_gated_on(s, key_rlc_cur(&c), long_even_sel2_rlc(c, r_table), p, w);
    lemma_eval_is_value(key_rlc_cur(&c), p, w);
    let mp = key_rlc_mult_prev_level(&c);
    lemma_gated_holds(s, difference(key_rlc_branch(&c), key_rlc_cur(&c)), product_of(product_of(modified_node_cur(&c), mp), mult_diff_branch(&c)), p, w);
    lemma_gated_holds(s, key_rlc_mult_branch(&c), product_of(product_of(mp, mult_diff_branch(&c)), r_table[0]), p, w);
    assert(eval(g[k + 3].poly, p, w) == 0);
    assert(eval(g[k + 3 + 1].poly, p, w) == 0);
    assert(eval(g[k + 3 + 2].poly, p, w) == 0);
    lemma_long_group(c, r_table, true, p, w);
    lemma_gate_from_parts(c, r_table, p, w);
}

/// At extension row C of an extension node whose key has an odd number of
/// nibbles and more than one byte, below the first level, with the modified
/// child nibble first in its byte (`sel1 = 1`, `sel2 = 0`), the row above no
/// branch child row, and each byte `s_S[ind + 1]` of extension row S equal to
/// `16 · f(ind) + s_C[ind]`, over a field of odd order: cell values with
/// - `key_rlc` = the nibble-wise RLC from `key_rlc_prev_level + 16 · (s_S[0] - 16) · key_rlc_mult_prev_level`,
/// - `key_rlc_branch - key_rlc = modified_node · key_rlc_mult_prev_level · mult_diff`,
/// - `key_rlc_mult_branch = key_rlc_mult_prev_level · mult_diff · r_table[0]`
///
/// (modulo `p`) make every polynomial of the chip's gate vanish.
pub proof fn lemma_long_odd_sel1_gate_complete(
    c: ExtensionNodeKeyColumns,
    r_table: Seq<Expr>,
    f: spec_fn(int) -> int,
    p: int,
    w: Cells,
)
    requires
        p > 1,
        p % 2 == 1,
        eval(not_first_level(&c), p, w) == 1,
        eval(is_account_leaf_storage_codehash_prev(&c), p, w) == 0,
        eval(is_extension_node(&c), p, w) == 1,
        eval(is_extension_c_row(&c), p, w) == 1,
        eval(is_key_odd(&c), p, w) == 1,
        eval(is_key_even(&c), p, w) == 0,
        eval(is_long(&c), p, w) == 1,
        eval(is_short(&c), p, w) == 0,
        eval(sel1(&c), p, w) == 1,
        eval(sel2(&c), p, w) == 0,
        eval(is_branch_child_prev(&c), p, w) == 0,
        forall|ind: int|
            0 <= ind < key_bytes() ==> 0 <= #[trigger] f(ind) < p && cell(w, c.s_advices@[ind + 1], -1)
                % p == (16 * f(ind) + cell(w, c.s_advices@[ind], 0)) % p,
        cell(w, c.key_rlc, 0) % p == nibble_rlc_target(
            c,
            cell(w, c.key_rlc, -21) + 16 * (cell(w, c.s_advices@[0], -1) - 16) * cell(w, c.key_rlc_mult, -21),
            key_bytes(),
            r_table,
            f,
            p,
            w,
        ) % p,
        (cell(w, c.key_rlc, -17) - cell(w, c.key_rlc, 0)) % p == (cell(w, c.modified_node, -2)
            * cell(w, c.key_rlc_mult, -21) * cell(w, c.mult_diff, -17)) % p,
        cell(w, c.key_rlc_mult, -17) % p == (cell(w, c.key_rlc_mult, -21) * cell(w, c.mult_diff, -17) * value(r_table[0], p, w)) % p,
    ensures
        gate_satisfied(c, r_table, p, w),
{
    reveal_with_fuel(has_zero_factor, 8);
    lemma_long_row_others_off(c, r_table, p, w);
    lemma_named_cell_values(c, p, w);
    lemma_long_group(c, r_table, true, p, w);
    let g = long_odd_constraints(c, r_table);
    let k = key_bytes() as int;
    let ls = long_selector(&c, is_key_odd(&c));
    lemma_long_selector_is_one(c, is_key_odd(&c), p, w);
    let s = product_of(ls, sel1(&c));
    lemma_eval_product_of_ones(ls, sel1(&c), p, w);
    lemma_long_odd_sel1_rlc_value(c, r_table, f, p, w);
    lemma_eval_is_value(key_rlc_cur(&c), p, w);
    lemma_gated_on(s, key_rlc_cur(&c), long_odd_sel1_rlc(c, r_table), p, w);
    lemma_eval_is_value(key_rlc_cur(&c), p, w);
    let mp = key_rlc_mult_prev_level(&c);
    lemma_gated_holds(s, difference(key_rlc_branch(&c), key_rlc_cur(&c)), product_of(product_of(modified_node_cur(&c), mp), mult_diff_branch(&c)), p, w);
    lemma_gated_holds(s, key_rlc_mult_branch(&c), product_of(product_of(mp, mult_diff_branch(&c)), r_table[0]), p, w);
    assert(eval(g[k].poly, p, w) == 0);
    assert(eval(g[k + 1].poly, p, w) == 0);
    assert(eval(g[k + 2].poly, p, w) == 0);
    lemma_long_group(c, r_table, false, p, w);
    lemma_gate_from_parts(c, r_table, p, w);
}

/// At extension row C of an extension node whose key has an odd number of
/// nibbles and more than one byte, below the first level, with the modified
/// child nibble second in its byte (`sel1 = 0`, `sel2 = 1`), and the row above
/// no branch child row: cell values with
/// - `key_rlc = key_rlc_prev_level + key_rlc_mult_prev_level · ((s_S[0] - 16) + Σ_{k=1}^{31} s_S[k] · r_table[k - 1])`,
/// - `key_rlc_branch - key_rlc = 16 · modified_node · key_rlc_mult_prev_level · mult_diff`,
/// - `key_rlc_mult_branch = key_rlc_mult_prev_level · mult_diff`
///
/// (modulo `p`) make every polynomial of the chip's gate vanish.
pub proof fn lemma_long_odd_sel2_gate_complete(
    c: ExtensionNodeKeyColumns,
    r_table: Seq<Expr>,
    p: int,
    w: Cells,
)
    requires
        p > 1,
        eval(not_first_level(&c), p, w) == 1,
        eval(is_account_leaf_storage_codehash_prev(&c), p, w) == 0,
        eval(is_extension_node(&c), p, w) == 1,
        eval(is_extension_c_row(&c), p, w) == 1,
        eval(is_key_odd(&c), p, w) == 1,
        eval(is_key_even(&c), p, w) == 0,
        eval(is_long(&c), p, w) == 1,
        eval(is_short(&c), p, w) == 0,
        eval(sel2(&c), p, w) == 1,
        eval(sel1(&c), p, w) == 0,
        eval(is_branch_child_prev(&c), p, w) == 0,
        cell(w, c.key_rlc, 0) % p == (cell(w, c.key_rlc, -21) + cell(w, c.key_rlc_mult, -21) * (
        (cell(w, c.s_advices@[0], -1) - 16) + row_s_sum(c, 1, 32, r_table, p, w))) % p,
        (cell(w, c.key_rlc, -17) - cell(w, c.key_rlc, 0)) % p == (16 * cell(w, c.modified_node, -2)
            * cell(w, c.key_rlc_mult, -21) * cell(w, c.mult_diff, -17)) % p,
        cell(w, c.key_rlc_mult, -17) % p == (cell(w, c.key_rlc_mult, -21) * cell(w, c.mult_diff, -17)) % p,
    ensures
        gate_satisfied(c, r_table, p, w),
{
    reveal_with_fuel(has_zero_factor, 8);
    lemma_long_row_others_off(c, r_table, p, w);
    lemma_named_cell_values(c, p, w);
    lemma_long_group(c, r_table, true, p, w);
    let g = long_odd_constraints(c, r_table);
    let k = key_bytes() as int;
    let ls = long_selector(&c, is_key_odd(&c));
    lemma_long_selector_is_one(c, is_key_odd(&c), p, w);
    let s = product_of(ls, sel2(&c));
    lemma_eval_product_of_ones(ls, sel2(&c), p, w);
    lemma_long_odd_sel2_rlc_value(c, r_table, p, w);
    lemma_eval_is_value(key_rlc_cur(&c), p, w);
    lemma_gated_on(s, key_rlc_cur(&c), long_odd_sel2_rlc(c, r_table), p, w);
    lemma_eval_is_value(key_rlc_cur(&c), p, w);
    let mp = key_rlc_mult_prev_level(&c);
    lemma_gated_holds(s, difference(key_rlc_branch(&c), key_rlc_cur(&c)), product_of(product_of(product_of(c16(), modified_node_cur(&c)), mp), mult_diff_branch(&c)), p, w);
    lemma_gated_holds(s, key_rlc_mult_branch(&c), product_of(mp, mult_diff_branch(&c)), p, w);
    assert(eval(g[k + 3].poly, p, w) == 0);
    assert(eval(g[k + 3 + 1].poly, p, w) == 0);
    assert(eval(g[k + 3 + 2].poly, p, w) == 0);
    lemma_long_group(c, r_table, false, p, w);
    lemma_gate_from_parts(c, r_table, p, w);
}

/// At extension row C of an extension node whose key is one byte, below the
/// first level, with the modified child nibble first in its byte
/// (`sel1 = 1`, `sel2 = 0`), and the row above no branch child row: cell values with
/// - `key_rlc = key_rlc_prev_level + (s_rlp2 - 16) · key_rlc_mult_prev_level`,
/// - `key_rlc_branch - key_rlc = 16 · modified_node · key_rlc_mult_prev_level · r_table[0]`,
/// - `key_rlc_mult_branch = key_rlc_mult_prev_level · r_table[0]`
///
/// (modulo `p`) make every polynomial of the chip's gate vanish.
pub proof fn lemma_short_sel1_gate_complete(
    c: ExtensionNodeKeyColumns,
    r_table: Seq<Expr>,
    p: int,
    w: Cells,
)
    requires
        p > 1,
        eval(not_first_level(&c), p, w) == 1,
        eval(is_account_leaf_storage_codehash_prev(&c), p, w) == 0,
        eval(is_extension_node(&c), p, w) == 1,
        eval(is_extension_c_row(&c), p, w) == 1,
        eval(is_short(&c), p, w) == 1,
        eval(is_long(&c), p, w) == 0,
        eval(sel1(&c), p, w) == 1,
        eval(sel2(&c), p, w) == 0,
        eval(is_branch_child_prev(&c), p, w) == 0,
        cell(w, c.key_rlc, 0) % p == (cell(w, c.key_rlc, -21) + (cell(w, c.s_rlp2, -1) - 16) * cell(
            w,
            c.key_rlc_mult,
            -21,
        )) % p,
        (cell(w, c.key_rlc, -17) - cell(w, c.key_rlc, 0)) % p == (16 * cell(w, c.modified_node, -2)
            * cell(w, c.key_rlc_mult, -21) * value(r_table[0], p, w)) % p,
        cell(w, c.key_rlc_mult, -17) % p == (cell(w, c.key_rlc_mult, -21) * value(r_table[0], p, w))
            % p,
    ensures
        gate_satisfied(c, r_table, p, w),
{
    reveal_with_fuel(has_zero_factor, 8);
    lemma_eval_one_minus(is_extension_node(&c), p, w);
    lemma_eval_one_minus(not_first_level(&c), p, w);
    lemma_branch_children_off(c, p, w);
    lemma_not_extension_off(c, p, w);
    lemma_first_level_off(c, r_table, p, w);
    lemma_long_group(c, r_table, true, p, w);
    lemma_long_group(c, r_table, false, p, w);
    lemma_named_cell_values(c, p, w);
    let g = short_constraints(c, r_table);
    let sh = short_selector(&c);
    lemma_short_selector_is_one(c, p, w);
    let s = product_of(sh, sel1(&c));
    lemma_eval_product_of_ones(sh, sel1(&c), p, w);
    let mp = key_rlc_mult_prev_level(&c);
    let d = difference(s_rlp2_prev(&c), c16());
    assert(value(product_of(d, mp), p, w) == (cell(w, c.s_rlp2, -1) - 16) * cell(w, c.key_rlc_mult, -21));
    assert(short_sel1_rlc(&c) == sum_of(key_rlc_prev_level(&c), product_of(d, mp)));
    lemma_gated_holds(s, key_rlc_cur(&c), short_sel1_rlc(&c), p, w);
    lemma_gated_holds(
        s,
        difference(key_rlc_branch(&c), key_rlc_cur(&c)),
        product_of(product_of(product_of(c16(), modified_node_cur(&c)), mp), r_table[0]),
        p,
        w,
    );
    lemma_gated_holds(s, key_rlc_mult_branch(&c), product_of(mp, r_table[0]), p, w);
    assert forall|i: int| 0 <= i < g.len() implies eval(#[trigger] g[i].poly, p, w) == 0 by {
        if i >= 3 {
            assert(has_zero_factor(g[i].poly, p, w));
            lemma_zero_factor(g[i].poly, p, w);
        }
    }
    lemma_gate_from_parts(c, r_table, p, w);
}

/// At extension row C of an extension node at the first level of an account
/// proof (`account`) or of a storage proof, with the row above no branch
/// child row, cell values that meet the relations of its key make every
/// polynomial of the chip's gate vanish (modulo `p`):
/// - a key of one byte (and no long key): `key_rlc = (s_rlp2 - 16) · 16`,
///   `key_rlc_branch = (s_rlp2 - 16) · 16 + modified_node`, `key_rlc_mult_branch = r_table[0]`;
/// - a long key of an even number of nibbles (and no short key):
///   `key_rlc = s_S[1] + Σ_{k=1}^{31} s_S[k] · r_table[k - 1] + 16 · modified_node`.
pub proof fn lemma_first_level_gate_complete(
    c: ExtensionNodeKeyColumns,
    r_table: Seq<Expr>,
    account: bool,
    p: int,
    w: Cells,
)
    requires
        p > 1,
        eval(is_extension_node(&c), p, w) == 1,
        eval(is_extension_c_row(&c), p, w) == 1,
        eval(is_branch_child_prev(&c), p, w) == 0,
        account ==> eval(q_not_first(&c), p, w) == 1 && eval(is_branch_init_prev(&c), p, w) == 0
            && eval(not_first_level(&c), p, w) == 0,
        !account ==> eval(not_first_level(&c), p, w) == 1 && eval(
            is_account_leaf_storage_codehash_prev(&c),
            p,
            w,
        ) == 1,
        eval(is_short(&c), p, w) == 1 && eval(is_long(&c), p, w) == 0 && cell(w, c.key_rlc, 0) % p
            == ((cell(w, c.s_rlp2, -1) - 16) * 16) % p && cell(w, c.key_rlc, -17) % p == ((cell(
            w,
            c.s_rlp2,
            -1,
        ) - 16) * 16 + cell(w, c.modified_node, -2)) % p && cell(w, c.key_rlc_mult, -17) % p
            == value(r_table[0], p, w) % p || eval(is_short(&c), p, w) == 0 && eval(
            is_key_even(&c),
            p,
            w,
        ) == 1 && eval(is_long(&c), p, w) == 1 && cell(w, c.key_rlc, 0) % p == (cell(
            w,
            c.s_advices@[1],
            -1,
        ) + row_s_sum(c, 1, 32, r_table, p, w) + 16 * cell(w, c.modified_node, -2)) % p,
    ensures
        gate_satisfied(c, r_table, p, w),
{
    reveal_with_fuel(has_zero_factor, 8);
    lemma_eval_one_minus(is_extension_node(&c), p, w);
    lemma_eval_one_minus(not_first_level(&c), p, w);
    if account {
        lemma_eval_one_minus(is_branch_init_prev(&c), p, w);
    } else {
        lemma_eval_one_minus(is_account_leaf_storage_codehash_prev(&c), p, w);
    }
    lemma_eval_one_minus(is_branch_child_prev(&c), p, w);
    lemma_branch_children_off(c, p, w);
    lemma_not_extension_off(c, p, w);
    lemma_long_group(c, r_table, true, p, w);
    lemma_long_group(c, r_table, false, p, w);
    lemma_short_off(c, r_table, p, w);
    lemma_named_cell_values(c, p, w);
    let g = first_level_constraints(c, r_table);
    let sel = if account { account_first_selector(&c) } else { storage_first_selector(&c) };
    let other = if account { storage_first_selector(&c) } else { account_first_selector(&c) };
    let off = if account { 4int } else { 0 };
    let on = if account { 0int } else { 4 };
    assert(has_zero_factor(other, p, w));
    // the selector of the row's proof is one
    if account {
        let a = product_of(q_not_first(&c), difference(one(), is_branch_init_prev(&c)));
        lemma_eval_product_of_ones(q_not_first(&c), difference(one(), is_branch_init_prev(&c)), p, w);
        let b = product_of(a, difference(one(), is_branch_child_prev(&c)));
        lemma_eval_product_of_ones(a, difference(one(), is_branch_child_prev(&c)), p, w);
        let d = product_of(b, difference(one(), not_first_level(&c)));
        lemma_eval_product_of_ones(b, difference(one(), not_first_level(&c)), p, w);
        lemma_eval_product_of_ones(d, is_extension_node(&c), p, w);
        lemma_eval_product_of_ones(product_of(d, is_extension_node(&c)), is_extension_c_row(&c), p, w);
    } else {
        let a = product_of(not_first_level(&c), is_account_leaf_storage_codehash_prev(&c));
        lemma_eval_product_of_ones(not_first_level(&c), is_account_leaf_storage_codehash_prev(&c), p, w);
        lemma_eval_product_of_ones(a, is_extension_node(&c), p, w);
        lemma_eval_product_of_ones(product_of(a, is_extension_node(&c)), is_extension_c_row(&c), p, w);
    }
    assert(eval(sel, p, w) == 1);
    if eval(is_short(&c), p, w) == 1 {
        let ss = product_of(sel, is_short(&c));
        lemma_eval_product_of_ones(sel, is_short(&c), p, w);
        assert(value(first_level_short_ext_rlc(&c), p, w) == (cell(w, c.s_rlp2, -1) - 16) * 16);
        assert(value(first_level_short_branch_rlc(&c), p, w) == (cell(w, c.s_rlp2, -1) - 16) * 16
            + cell(w, c.modified_node, -2));
        lemma_gated_holds(ss, first_level_short_ext_rlc(&c), key_rlc_cur(&c), p, w);
        lemma_gated_holds(ss, first_level_short_branch_rlc(&c), key_rlc_branch(&c), p, w);
        lemma_gated_holds(ss, r_table[0], key_rlc_mult_branch(&c), p, w);
        assert(eval(g[on + 1].poly, p, w) == 0);
        assert(eval(g[on + 2].poly, p, w) == 0);
        assert(eval(g[on + 3].poly, p, w) == 0);
        assert(has_zero_factor(g[on].poly, p, w));
        lemma_zero_factor(g[on].poly, p, w);
    } else {
        let sl = product_of(product_of(sel, is_key_even(&c)), is_long(&c));
        lemma_eval_product_of_ones(sel, is_key_even(&c), p, w);
        lemma_eval_product_of_ones(product_of(sel, is_key_even(&c)), is_long(&c), p, w);
        lemma_first_level_long_even_rlc_value(c, r_table, p, w);
        lemma_eval_is_value(key_rlc_cur(&c), p, w);
        lemma_gated_on(sl, first_level_long_even_rlc(c, r_table), key_rlc_cur(&c), p, w);
        assert(eval(g[on].poly, p, w) == 0);
        assert(has_zero_factor(g[on + 1].poly, p, w));
        assert(has_zero_factor(g[on + 2].poly, p, w));
        assert(has_zero_factor(g[on + 3].poly, p, w));
        lemma_zero_factor(g[on + 1].poly, p, w);
        lemma_zero_factor(g[on + 2].poly, p, w);
        lemma_zero_factor(g[on + 3].poly, p, w);
    }
    assert forall|i: int| 0 <= i < g.len() implies eval(#[trigger] g[i].poly, p, w) == 0 by {
        if off <= i < off + 4 {
            assert(has_zero_factor(g[i].poly, p, w));
            lemma_zero_factor(g[i].poly, p, w);
        }
    }
    lemma_gate_from_parts(c, r_table, p, w);
}

/// At an extension row (S or C, the other row flag being zero) of a branch
/// without extension node (below the first row of the table, the row above
/// neither the branch init row nor a branch child row), cell values that
/// repeat the key RLC and its multiplier of the row above make every
/// polynomial of the chip's gate vanish (modulo `p`).
pub proof fn lemma_not_extension_gate_complete(
    c: ExtensionNodeKeyColumns,
    r_table: Seq<Expr>,
    p: int,
    w: Cells,
)
    requires
        p > 1,
        eval(q_not_first(&c), p, w) == 1,
        eval(is_branch_init_prev(&c), p, w) == 0,
        eval(is_branch_child_prev(&c), p, w) == 0,
        eval(is_extension_node(&c), p, w) == 0,
        eval(is_extension_s_row(&c), p, w) == 1 && eval(is_extension_c_row(&c), p, w) == 0 || eval(
            is_extension_s_row(&c),
            p,
            w,
        ) == 0 && eval(is_extension_c_row(&c), p, w) == 1,
        cell(w, c.key_rlc, 0) % p == cell(w, c.key_rlc, -1) % p,
        cell(w, c.key_rlc_mult, 0) % p == cell(w, c.key_rlc_mult, -1) % p,
    ensures
        gate_satisfied(c, r_table, p, w),
{
    reveal_with_fuel(has_zero_factor, 8);
    lemma_branch_children_off(c, p, w);
    lemma_first_level_off(c, r_table, p, w);
    lemma_long_group(c, r_table, true, p, w);
    lemma_long_group(c, r_table, false, p, w);
    lemma_short_off(c, r_table, p, w);
    let g = not_extension_constraints(c);
    lemma_eval_one_minus(is_branch_init_prev(&c), p, w);
    lemma_eval_one_minus(is_branch_child_prev(&c), p, w);
    lemma_eval_one_minus(is_extension_node(&c), p, w);
    let a = product_of(q_not_first(&c), difference(one(), is_branch_init_prev(&c)));
    lemma_eval_product_of_ones(q_not_first(&c), difference(one(), is_branch_init_prev(&c)), p, w);
    let b = product_of(a, difference(one(), is_branch_child_prev(&c)));
    lemma_eval_product_of_ones(a, difference(one(), is_branch_child_prev(&c)), p, w);
    let row = if eval(is_extension_s_row(&c), p, w) == 1 { is_extension_s_row(&c) } else { is_extension_c_row(&c) };
    lemma_eval_product_of_ones(b, row, p, w);
    lemma_eval_product_of_ones(product_of(b, row), difference(one(), is_extension_node(&c)), p, w);
    let sel = not_extension_selector(&c, row);
    assert(value(key_rlc_prev(&c), p, w) == cell(w, c.key_rlc, -1));
    assert(value(key_rlc_mult_prev(&c), p, w) == cell(w, c.key_rlc_mult, -1));
    assert(value(key_rlc_cur(&c), p, w) == cell(w, c.key_rlc, 0));
    assert(value(key_rlc_mult_cur(&c), p, w) == cell(w, c.key_rlc_mult, 0));
    lemma_gated_holds(sel, key_rlc_cur(&c), key_rlc_prev(&c), p, w);
    lemma_gated_holds(sel, key_rlc_mult_cur(&c), key_rlc_mult_prev(&c), p, w);
    assert forall|i: int| 0 <= i < g.len() implies eval(#[trigger] g[i].poly, p, w) == 0 by {
        if eval(is_extension_s_row(&c), p, w) == 1 {
            if i >= 2 {
                assert(has_zero_factor(g[i].poly, p, w));
                lemma_zero_factor(g[i].poly, p, w);
            }
        } else {
            if i < 2 {
                assert(has_zero_factor(g[i].poly, p, w));
                lemma_zero_factor(g[i].poly, p, w);
            }
        }
    }
    lemma_gate_from_parts(c, r_table, p, w);
}

/// At a child row of a branch whose row above is a child row too (below the
/// first row of the table, and not extension row C), cell values that repeat
/// the key RLC, its multiplier and `mult_diff` of the row above make every
/// polynomial of the chip's gate vanish (modulo `p`).
pub proof fn lemma_branch_children_gate_complete(
    c: ExtensionNodeKeyColumns,
    r_table: Seq<Expr>,
    p: int,
    w: Cells,
)
    requires
        p > 1,
        eval(q_not_first(&c), p, w) == 1,
        eval(is_branch_child_prev(&c), p, w) == 1,
        eval(is_branch_child_cur(&c), p, w) == 1,
        eval(is_extension_c_row(&c), p, w) == 0,
        cell(w, c.key_rlc, 0) % p == cell(w, c.key_rlc, -1) % p,
        cell(w, c.key_rlc_mult, 0) % p == cell(w, c.key_rlc_mult, -1) % p,
        cell(w, c.mult_diff, 0) % p == cell(w, c.mult_diff, -1) % p,
    ensures
        gate_satisfied(c, r_table, p, w),
{
    reveal_with_fuel(has_zero_factor, 8);
    lemma_eval_one_minus(is_branch_child_prev(&c), p, w);
    lemma_not_extension_off(c, p, w);
    lemma_first_level_off(c, r_table, p, w);
    lemma_long_group(c, r_table, true, p, w);
    lemma_long_group(c, r_table, false, p, w);
    lemma_short_off(c, r_table, p, w);
    let g = branch_children_constraints(c);
    let sel = branch_children_selector(&c);
    lemma_eval_product_of_ones(q_not_first(&c), is_branch_child_prev(&c), p, w);
    lemma_eval_product_of_ones(product_of(q_not_first(&c), is_branch_child_prev(&c)), is_branch_child_cur(&c), p, w);
    assert(value(key_rlc_prev(&c), p, w) == cell(w, c.key_rlc, -1));
    assert(value(key_rlc_mult_prev(&c), p, w) == cell(w, c.key_rlc_mult, -1));
    assert(value(key_rlc_cur(&c), p, w) == cell(w, c.key_rlc, 0));
    assert(value(key_rlc_mult_cur(&c), p, w) == cell(w, c.key_rlc_mult, 0));
    assert(value(mult_diff_cur(&c), p, w) == cell(w, c.mult_diff, 0));
    assert(value(mult_diff_prev(&c), p, w) == cell(w, c.mult_diff, -1));
    lemma_gated_holds(sel, key_rlc_cur(&c), key_rlc_prev(&c), p, w);
    lemma_gated_holds(sel, key_rlc_mult_cur(&c), key_rlc_mult_prev(&c), p, w);
    lemma_gated_holds(sel, mult_diff_cur(&c), mult_diff_prev(&c), p, w);
    assert(eval(g[0].poly, p, w) == 0);
    assert(eval(g[1].poly, p, w) == 0);
    assert(eval(g[2].poly, p, w) == 0);
    lemma_gate_from_parts(c, r_table, p, w);
}

} // verus!
