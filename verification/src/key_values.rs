//! What a satisfied extension-node key gate holds the key RLC to, stated
//! over the values of the table cells.
use vstd::prelude::*;
use vstd::arithmetic::div_mod::*;
use crate::expr::{
    Expr, Cells, eval, value, sum_of, difference, product_of, lemma_eval_is_value,
    lemma_eval_product_with_zero, lemma_eval_product_of_ones, lemma_eval_one_minus,
};
use crate::helpers::rlc_expr;
use crate::key_cells::{
    ExtensionNodeKeyColumns, not_first_level, is_extension_node, is_key_even, is_key_odd,
    is_long, sel1, sel2, is_account_leaf_storage_codehash_prev, is_extension_c_row, key_rlc_cur,
    long_even_sel1_rlc, long_odd_sel2_rlc, long_odd_sel1_rlc, long_even_sel2_rlc, first_level_long_even_rlc, q_not_first,
    is_branch_init_prev, is_branch_child_prev, s_advice_prev, s_advice_cur, c16,
    key_rlc_prev_level, key_rlc_mult_prev_level, long_odd_sel1_start, one, is_short,
    is_branch_child_cur, is_extension_s_row, branch_children_selector, not_extension_selector,
    account_first_selector, storage_first_selector, long_selector, short_selector,
    short_sel2_rlc, short_sel1_rlc, first_level_short_ext_rlc, first_level_short_branch_rlc, mult_diff_branch, s_rlp2_prev, key_rlc_branch, key_rlc_mult_branch, modified_node_cur,
};
use crate::extension_node_key::{
    Constraint, key_bytes, branch_children_constraints, not_extension_constraints,
    first_level_constraints, long_even_constraints, long_odd_constraints, short_constraints,
    nibble_constraint,
};
use crate::key_laws::{
    gate_satisfied, lemma_long_even_key, lemma_long_odd_key, lemma_account_first_level_key,
    lemma_storage_first_level_key, nibble_rlc_target, lemma_nibble_rlc_value, satisfied,
    lemma_gated_on, lemma_short_selector_is_one, lemma_short_key,
};
use crate::param::HASH_WIDTH;

verus! {

/// The value of the advice cell of `column` at `rotation`.
pub open spec fn cell(w: Cells, column: usize, rotation: int) -> int {
    (w.advice)(column as int, rotation)
}

/// `Σ_{k = from}^{to - 1} s_S[k] · r_table[k - from]`, with `s_S[k]` the byte
/// cell `k` of extension row S (rotation -1).
pub open spec fn row_s_sum(
    c: ExtensionNodeKeyColumns,
    from: int,
    to: int,
    r_table: Seq<Expr>,
    p: int,
    w: Cells,
) -> int
    decreases to - from,
{
    if to <= from {
        0
    } else {
        row_s_sum(c, from, to - 1, r_table, p, w) + cell(w, c.s_advices@[to - 1], -1) * value(
            r_table[to - 1 - from],
            p,
            w,
        )
    }
}

/// The random linear combination of the byte cells `from..from + n` of
/// extension row S has the integer value of their weighted sum times the multiplier.
proof fn lemma_row_rlc_value(
    c: ExtensionNodeKeyColumns,
    from: int,
    n: int,
    mult: Expr,
    r_table: Seq<Expr>,
    p: int,
    w: Cells,
)
    requires
        0 <= from,
        0 <= n,
        from + n <= HASH_WIDTH,
    ensures
        value(rlc_expr(c.s_advices@.subrange(from, from + n), 0, mult, -1i32, r_table), p, w)
            == row_s_sum(c, from, from + n, r_table, p, w) * value(mult, p, w),
    decreases n,
{
    let s = c.s_advices@.subrange(from, from + n);
    let vm = value(mult, p, w);
    if n == 0 {
        assert(0 * vm == 0);
    } else {
        lemma_row_rlc_value(c, from, n - 1, mult, r_table, p, w);
        assert(s.take(n - 1) =~= c.s_advices@.subrange(from, from + n - 1));
        assert(s[n - 1] == c.s_advices@[from + n - 1]);
        let prev = row_s_sum(c, from, from + n - 1, r_table, p, w);
        let a = cell(w, c.s_advices@[from + n - 1], -1);
        let r = value(r_table[n - 1], p, w);
        assert(value(Expr::Advice(s[n - 1], -1i32), p, w) == a);
        assert(rlc_expr(s, 0, mult, -1i32, r_table) == crate::expr::sum_of(
            rlc_expr(s.take(n - 1), 0, mult, -1i32, r_table),
            crate::expr::product_of(
                crate::expr::product_of(Expr::Advice(s[n - 1], -1i32), r_table[n - 1]),
                mult,
            ),
        ));
        assert(value(rlc_expr(s.take(n - 1), 0, mult, -1i32, r_table), p, w) == prev * vm);
        assert(value(crate::expr::product_of(Expr::Advice(s[n - 1], -1i32), r_table[n - 1]), p, w) == a * r);
        assert(value(
            crate::expr::product_of(
                crate::expr::product_of(Expr::Advice(s[n - 1], -1i32), r_table[n - 1]),
                mult,
            ),
            p,
            w,
        ) == (a * r) * vm);
        assert(value(rlc_expr(s, 0, mult, -1i32, r_table), p, w) == prev * vm + (a * r) * vm);
        assert(prev * vm + (a * r) * vm == (prev + a * r) * vm) by (nonlinear_arith);
    }
}

/// At extension row C of an extension node whose key has an even number of
/// nibbles and more than one byte, below the first level, where the modified
/// child nibble is the first of its byte, a satisfied gate holds the key RLC to
/// `key_rlc_prev_level + key_rlc_mult_prev_level · (s_S[1] + Σ_{k=2}^{31} s_S[k] · r_table[k - 2])`:
/// the key bytes after the padding byte `s_S[0]` follow the previous key RLC.
pub proof fn lemma_long_even_sel1_key_value(
    c: ExtensionNodeKeyColumns,
    r_table: Seq<Expr>,
    p: int,
    w: Cells,
)
    requires
        p > 1,
        gate_satisfied(c, r_table, p, w),
        eval(not_first_level(&c), p, w) == 1,
        eval(is_account_leaf_storage_codehash_prev(&c), p, w) == 0,
        eval(is_extension_node(&c), p, w) == 1,
        eval(is_extension_c_row(&c), p, w) == 1,
        eval(is_key_even(&c), p, w) == 1,
        eval(is_long(&c), p, w) == 1,
        eval(sel1(&c), p, w) == 1,
    ensures
        cell(w, c.key_rlc, 0) % p == (cell(w, c.key_rlc, -21) + cell(w, c.key_rlc_mult, -21) * (
        cell(w, c.s_advices@[1], -1) + row_s_sum(c, 2, 32, r_table, p, w))) % p,
{
    lemma_long_even_key(c, r_table, p, w);
    lemma_long_even_sel1_rlc_value(c, r_table, p, w);
}

/// The random linear combination of the byte cells `from..32` of extension row S.
proof fn lemma_row_rlc_tail(
    c: ExtensionNodeKeyColumns,
    from: int,
    mult: Expr,
    r_table: Seq<Expr>,
    p: int,
    w: Cells,
)
    requires
        0 <= from <= HASH_WIDTH,
    ensures
        value(rlc_expr(c.s_advices@.subrange(from, HASH_WIDTH as int), 0, mult, -1i32, r_table), p, w)
            == row_s_sum(c, from, 32, r_table, p, w) * value(mult, p, w),
{
    lemma_row_rlc_value(c, from, 32 - from, mult, r_table, p, w);
    assert(c.s_advices@.subrange(from, HASH_WIDTH as int) == c.s_advices@.subrange(from, from + (32 - from)));
}

/// At extension row C of an extension node whose key has an odd number of
/// nibbles and more than one byte, below the first level, where the modified
/// child nibble is the second of its byte, a satisfied gate holds the key RLC to
/// `key_rlc_prev_level + key_rlc_mult_prev_level · ((s_S[0] - 16) + Σ_{k=1}^{31} s_S[k] · r_table[k - 1])`:
/// the first nibble, stored compactly as `16 + nibble` in `s_S[0]`, then the key bytes.
pub proof fn lemma_long_odd_sel2_key_value(
    c: ExtensionNodeKeyColumns,
    r_table: Seq<Expr>,
    p: int,
    w: Cells,
)
    requires
        p > 1,
        gate_satisfied(c, r_table, p, w),
        eval(not_first_level(&c), p, w) == 1,
        eval(is_account_leaf_storage_codehash_prev(&c), p, w) == 0,
        eval(is_extension_node(&c), p, w) == 1,
        eval(is_extension_c_row(&c), p, w) == 1,
        eval(is_key_odd(&c), p, w) == 1,
        eval(is_long(&c), p, w) == 1,
        eval(sel2(&c), p, w) == 1,
    ensures
        cell(w, c.key_rlc, 0) % p == (cell(w, c.key_rlc, -21) + cell(w, c.key_rlc_mult, -21) * (
        (cell(w, c.s_advices@[0], -1) - 16) + row_s_sum(c, 1, 32, r_table, p, w))) % p,
{
    lemma_long_odd_key(c, r_table, p, w);
    lemma_long_odd_sel2_rlc_value(c, r_table, p, w);
}

/// The key of a long even extension node at the first level has the value
/// `s_S[1] + Σ_{k=1}^{31} s_S[k] · r_table[k - 1] + 16 · modified_node`.
pub(crate) proof fn lemma_first_level_long_even_rlc_value(
    c: ExtensionNodeKeyColumns,
    r_table: Seq<Expr>,
    p: int,
    w: Cells,
)
    requires
        p > 0,
    ensures
        eval(first_level_long_even_rlc(c, r_table), p, w) == (cell(w, c.s_advices@[1], -1)
            + row_s_sum(c, 1, 32, r_table, p, w) + 16 * cell(w, c.modified_node, -2)) % p,
{
    let e = first_level_long_even_rlc(c, r_table);
    lemma_eval_is_value(e, p, w);
    let o = crate::key_cells::one();
    lemma_row_rlc_tail(c, 1, o, r_table, p, w);
    let s1 = cell(w, c.s_advices@[1], -1);
    let sum = row_s_sum(c, 1, 32, r_table, p, w);
    let mn = cell(w, c.modified_node, -2);
    assert(value(o, p, w) == 1);
    assert(sum * 1 == sum);
    let tail = rlc_expr(c.s_advices@.subrange(1, HASH_WIDTH as int), 0, o, -1i32, r_table);
    assert(value(tail, p, w) == sum);
    let head = crate::expr::sum_of(crate::key_cells::s_advice_prev(&c, 1), tail);
    assert(value(crate::key_cells::s_advice_prev(&c, 1), p, w) == s1);
    assert(value(head, p, w) == s1 + sum);
    let last = crate::expr::product_of(crate::key_cells::modified_node_cur(&c), crate::key_cells::c16());
    assert(value(crate::key_cells::c16(), p, w) == 16);
    assert(value(crate::key_cells::modified_node_cur(&c), p, w) == mn);
    assert(value(last, p, w) == mn * 16);
    assert(e == crate::expr::sum_of(head, last));
    assert(value(e, p, w) == s1 + sum + 16 * mn);
}

/// At extension row C of an extension node whose key has an even number of
/// nibbles and more than one byte, at the first level of an account proof, a
/// satisfied gate holds the key RLC to
/// `s_S[1] + Σ_{k=1}^{31} s_S[k] · r_table[k - 1] + 16 · modified_node`.
pub proof fn lemma_account_first_level_long_even_key_value(
    c: ExtensionNodeKeyColumns,
    r_table: Seq<Expr>,
    p: int,
    w: Cells,
)
    requires
        p > 1,
        gate_satisfied(c, r_table, p, w),
        eval(q_not_first(&c), p, w) == 1,
        eval(is_branch_init_prev(&c), p, w) == 0,
        eval(is_branch_child_prev(&c), p, w) == 0,
        eval(not_first_level(&c), p, w) == 0,
        eval(is_extension_node(&c), p, w) == 1,
        eval(is_extension_c_row(&c), p, w) == 1,
        eval(is_key_even(&c), p, w) == 1,
        eval(is_long(&c), p, w) == 1,
    ensures
        cell(w, c.key_rlc, 0) % p == (cell(w, c.s_advices@[1], -1) + row_s_sum(c, 1, 32, r_table, p, w)
            + 16 * cell(w, c.modified_node, -2)) % p,
{
    lemma_account_first_level_key(c, r_table, p, w);
    lemma_first_level_long_even_rlc_value(c, r_table, p, w);
}

/// At extension row C of an extension node whose key has an even number of
/// nibbles and more than one byte, at the first level of a storage proof, a
/// satisfied gate holds the key RLC to
/// `s_S[1] + Σ_{k=1}^{31} s_S[k] · r_table[k - 1] + 16 · modified_node`.
pub proof fn lemma_storage_first_level_long_even_key_value(
    c: ExtensionNodeKeyColumns,
    r_table: Seq<Expr>,
    p: int,
    w: Cells,
)
    requires
        p > 1,
        gate_satisfied(c, r_table, p, w),
        eval(not_first_level(&c), p, w) == 1,
        eval(is_account_leaf_storage_codehash_prev(&c), p, w) == 1,
        eval(is_extension_node(&c), p, w) == 1,
        eval(is_extension_c_row(&c), p, w) == 1,
        eval(is_key_even(&c), p, w) == 1,
        eval(is_long(&c), p, w) == 1,
    ensures
        cell(w, c.key_rlc, 0) % p == (cell(w, c.s_advices@[1], -1) + row_s_sum(c, 1, 32, r_table, p, w)
            + 16 * cell(w, c.modified_node, -2)) % p,
{
    lemma_storage_first_level_key(c, r_table, p, w);
    lemma_first_level_long_even_rlc_value(c, r_table, p, w);
}

/// Restates the byte decomposition over the cell values, as the nibble lemmas take it.
proof fn lemma_bytes_as_values(
    c: ExtensionNodeKeyColumns,
    f: spec_fn(int) -> int,
    p: int,
    w: Cells,
)
    requires
        forall|ind: int|
            0 <= ind < key_bytes() ==> 0 <= #[trigger] f(ind) < p && cell(w, c.s_advices@[ind + 1], -1)
                % p == (16 * f(ind) + cell(w, c.s_advices@[ind], 0)) % p,
    ensures
        forall|ind: int|
            0 <= ind < key_bytes() ==> 0 <= #[trigger] f(ind) < p && value(
                s_advice_prev(&c, (ind + 1) as usize),
                p,
                w,
            ) % p == (16 * f(ind) + value(s_advice_cur(&c, ind as usize), p, w)) % p,
{
    assert forall|ind: int| 0 <= ind < key_bytes() implies 0 <= #[trigger] f(ind) < p && value(
        s_advice_prev(&c, (ind + 1) as usize),
        p,
        w,
    ) % p == (16 * f(ind) + value(s_advice_cur(&c, ind as usize), p, w)) % p by {
        assert(value(s_advice_prev(&c, (ind + 1) as usize), p, w) == cell(w, c.s_advices@[ind + 1], -1));
        assert(value(s_advice_cur(&c, ind as usize), p, w) == cell(w, c.s_advices@[ind], 0));
    }
}

/// At extension row C of an extension node whose key has an odd number of
/// nibbles and more than one byte, below the first level, where the modified
/// child nibble is the first of its byte, and where each byte `s_S[ind + 1]` of
/// extension row S is `16 · f(ind) + s_C[ind]` (`s_C` the byte cells of
/// extension row C, at rotation 0), a satisfied gate holds the key RLC to the
/// nibble-wise RLC from `key_rlc_prev_level + 16 · (s_S[0] - 16) · key_rlc_mult_prev_level`:
/// the compact first nibble `s_S[0] - 16` comes first in its byte.
pub proof fn lemma_long_odd_sel1_key_value(
    c: ExtensionNodeKeyColumns,
    r_table: Seq<Expr>,
    f: spec_fn(int) -> int,
    p: int,
    w: Cells,
)
    requires
        p > 1,
        p % 2 == 1,
        gate_satisfied(c, r_table, p, w),
        eval(not_first_level(&c), p, w) == 1,
        eval(is_account_leaf_storage_codehash_prev(&c), p, w) == 0,
        eval(is_extension_node(&c), p, w) == 1,
        eval(is_extension_c_row(&c), p, w) == 1,
        eval(is_key_odd(&c), p, w) == 1,
        eval(is_long(&c), p, w) == 1,
        eval(sel1(&c), p, w) == 1,
        forall|ind: int|
            0 <= ind < key_bytes() ==> 0 <= #[trigger] f(ind) < p && cell(w, c.s_advices@[ind + 1], -1)
                % p == (16 * f(ind) + cell(w, c.s_advices@[ind], 0)) % p,
    ensures
        cell(w, c.key_rlc, 0) % p == nibble_rlc_target(
            c,
            cell(w, c.key_rlc, -21) + 16 * (cell(w, c.s_advices@[0], -1) - 16) * cell(
                w,
                c.key_rlc_mult,
                -21,
            ),
            key_bytes(),
            r_table,
            f,
            p,
            w,
        ) % p,
{
    lemma_long_odd_key(c, r_table, p, w);
    lemma_long_odd_sel1_rlc_value(c, r_table, f, p, w);
}

/// At extension row C of an extension node whose key has an even number of
/// nibbles and more than one byte, below the first level, where the modified
/// child nibble is the second of its byte, and where each byte `s_S[ind + 1]`
/// of extension row S is `16 · f(ind) + s_C[ind]`, a satisfied gate holds the
/// key RLC to the nibble-wise RLC from `key_rlc_prev_level`.
pub proof fn lemma_long_even_sel2_key_value(
    c: ExtensionNodeKeyColumns,
    r_table: Seq<Expr>,
    f: spec_fn(int) -> int,
    p: int,
    w: Cells,
)
    requires
        p > 1,
        p % 2 == 1,
        gate_satisfied(c, r_table, p, w),
        eval(not_first_level(&c), p, w) == 1,
        eval(is_account_leaf_storage_codehash_prev(&c), p, w) == 0,
        eval(is_extension_node(&c), p, w) == 1,
        eval(is_extension_c_row(&c), p, w) == 1,
        eval(is_key_even(&c), p, w) == 1,
        eval(is_long(&c), p, w) == 1,
        eval(sel2(&c), p, w) == 1,
        forall|ind: int|
            0 <= ind < key_bytes() ==> 0 <= #[trigger] f(ind) < p && cell(w, c.s_advices@[ind + 1], -1)
                % p == (16 * f(ind) + cell(w, c.s_advices@[ind], 0)) % p,
    ensures
        cell(w, c.key_rlc, 0) % p == nibble_rlc_target(
            c,
            cell(w, c.key_rlc, -21),
            key_bytes(),
            r_table,
            f,
            p,
            w,
        ) % p,
{
    lemma_long_even_key(c, r_table, p, w);
    lemma_long_even_sel2_rlc_value(c, r_table, f, p, w);
}

/// The first factor of a product.
pub(crate) open spec fn left(e: Expr) -> Expr {
    match e {
        Expr::Product(a, _) => *a,
        _ => e,
    }
}

/// The second factor of a product.
pub(crate) open spec fn right(e: Expr) -> Expr {
    match e {
        Expr::Product(_, b) => *b,
        _ => e,
    }
}

pub(crate) proof fn lemma_satisfied_join(a: Seq<Constraint>, b: Seq<Constraint>, p: int, w: Cells)
    requires
        satisfied(a, p, w),
        satisfied(b, p, w),
    ensures
        satisfied(a + b, p, w),
{
    assert forall|i: int| 0 <= i < (a + b).len() implies eval(#[trigger] (a + b)[i].poly, p, w) == 0 by {
        if i < a.len() {
            assert((a + b)[i] == a[i]);
        } else {
            assert((a + b)[i] == b[i - a.len()]);
        }
    }
}

/// Every constraint of a long-key group vanishes where its long-key selector is zero.
pub(crate) proof fn lemma_long_group_off(
    c: ExtensionNodeKeyColumns,
    r_table: Seq<Expr>,
    p: int,
    w: Cells,
)
    requires
        p > 1,
        eval(is_long(&c), p, w) == 0,
    ensures
        satisfied(long_even_constraints(c, r_table), p, w),
        satisfied(long_odd_constraints(c, r_table), p, w),
{
    let le = long_selector(&c, is_key_even(&c));
    let lo = long_selector(&c, is_key_odd(&c));
    let x = product_of(
        product_of(
            product_of(
                product_of(not_first_level(&c), difference(one(), is_account_leaf_storage_codehash_prev(&c))),
                is_extension_node(&c),
            ),
            is_extension_c_row(&c),
        ),
        is_key_even(&c),
    );
    let y = product_of(
        product_of(
            product_of(
                product_of(not_first_level(&c), difference(one(), is_account_leaf_storage_codehash_prev(&c))),
                is_extension_node(&c),
            ),
            is_extension_c_row(&c),
        ),
        is_key_odd(&c),
    );
    lemma_eval_product_with_zero(x, is_long(&c), p, w);
    lemma_eval_product_with_zero(y, is_long(&c), p, w);
    lemma_eval_product_with_zero(le, sel1(&c), p, w);
    lemma_eval_product_with_zero(le, sel2(&c), p, w);
    lemma_eval_product_with_zero(lo, sel1(&c), p, w);
    lemma_eval_product_with_zero(lo, sel2(&c), p, w);
    let ge = long_even_constraints(c, r_table);
    let go = long_odd_constraints(c, r_table);
    let k = key_bytes() as int;
    assert forall|i: int| 0 <= i < ge.len() implies eval(#[trigger] ge[i].poly, p, w) == 0 by {
        if i < 3 || i >= k + 3 {
            let s = if i < 3 { product_of(le, sel1(&c)) } else { product_of(le, sel2(&c)) };
            assert(left(ge[i].poly) == s);
            lemma_eval_product_with_zero(s, right(ge[i].poly), p, w);
        } else {
            let s = product_of(le, sel2(&c));
            assert(ge[i] == nibble_constraint("long even sel2 nibble correspond to byte", s, c, i - 3));
            lemma_eval_product_with_zero(s, right(ge[i].poly), p, w);
        }
    }
    assert forall|i: int| 0 <= i < go.len() implies eval(#[trigger] go[i].poly, p, w) == 0 by {
        if i >= k {
            let s = if i < k + 3 { product_of(lo, sel1(&c)) } else { product_of(lo, sel2(&c)) };
            assert(left(go[i].poly) == s);
            lemma_eval_product_with_zero(s, right(go[i].poly), p, w);
        } else {
            let s = product_of(lo, sel1(&c));
            assert(go[i] == nibble_constraint("long odd sel1 nibble correspond to byte", s, c, i));
            lemma_eval_product_with_zero(s, right(go[i].poly), p, w);
        }
    }
}

/// At extension row C of an extension node whose key is one byte, below the
/// first level, where the modified child nibble is the second of its byte
/// (`sel1 = 0`, `sel2 = 1`), and the row above is no branch child row: cell
/// values with
/// - `key_rlc = key_rlc_prev_level + 16 · (s_rlp2 - 16) · key_rlc_mult_prev_level`,
/// - `key_rlc_branch = key_rlc + modified_node · key_rlc_mult_prev_level`,
/// - `key_rlc_mult_branch = key_rlc_mult_prev_level · r_table[0]`
///
/// (modulo `p`) make every polynomial of the chip's gate vanish.
pub proof fn lemma_short_sel2_gate_complete(
    c: ExtensionNodeKeyColumns,
    r_table: Seq<Expr>,
    p: int,
    w: Cells,
)
    requires
        p > 1,
        eval(not_first_level(&c), p, w) == 1,
        eval(is_account_leaf_storage_codehash_prev(&c), p, w) == 0,
        eval(is_extension_node(&c), p, w) == 1,
        eval(is_extension_c_row(&c), p, w) == 1,
        eval(is_short(&c), p, w) == 1,
        eval(is_long(&c), p, w) == 0,
        eval(sel1(&c), p, w) == 0,
        eval(sel2(&c), p, w) == 1,
        eval(is_branch_child_prev(&c), p, w) == 0,
        cell(w, c.key_rlc, 0) % p == (cell(w, c.key_rlc, -21) + 16 * (cell(w, c.s_rlp2, -1) - 16)
            * cell(w, c.key_rlc_mult, -21)) % p,
        cell(w, c.key_rlc, -17) % p == (cell(w, c.key_rlc, 0) + cell(w, c.modified_node, -2) * cell(
            w,
            c.key_rlc_mult,
            -21,
        )) % p,
        cell(w, c.key_rlc_mult, -17) % p == (cell(w, c.key_rlc_mult, -21) * value(r_table[0], p, w))
            % p,
    ensures
        gate_satisfied(c, r_table, p, w),
{
    // branch children: the row above is no branch child row
    let g1 = branch_children_constraints(c);
    lemma_eval_product_with_zero(q_not_first(&c), is_branch_child_prev(&c), p, w);
    lemma_eval_product_with_zero(
        product_of(q_not_first(&c), is_branch_child_prev(&c)),
        is_branch_child_cur(&c),
        p,
        w,
    );
    let bsel = branch_children_selector(&c);
    assert forall|i: int| 0 <= i < g1.len() implies eval(#[trigger] g1[i].poly, p, w) == 0 by {
        lemma_eval_product_with_zero(bsel, right(g1[i].poly), p, w);
    }
    // no-extension rows: there is an extension node
    let g2 = not_extension_constraints(c);
    lemma_eval_one_minus(is_extension_node(&c), p, w);
    assert forall|i: int| 0 <= i < g2.len() implies eval(#[trigger] g2[i].poly, p, w) == 0 by {
        let row = if i < 2 { is_extension_s_row(&c) } else { is_extension_c_row(&c) };
        let sel = not_extension_selector(&c, row);
        lemma_eval_product_with_zero(left(sel), difference(one(), is_extension_node(&c)), p, w);
        lemma_eval_product_with_zero(sel, right(g2[i].poly), p, w);
    }
    // first level: below it
    let g3 = first_level_constraints(c, r_table);
    lemma_eval_one_minus(not_first_level(&c), p, w);
    let af = account_first_selector(&c);
    let a3 = left(left(af));
    lemma_eval_product_with_zero(left(a3), difference(one(), not_first_level(&c)), p, w);
    lemma_eval_product_with_zero(a3, is_extension_node(&c), p, w);
    lemma_eval_product_with_zero(left(af), is_extension_c_row(&c), p, w);
    let sf = storage_first_selector(&c);
    lemma_eval_product_with_zero(not_first_level(&c), is_account_leaf_storage_codehash_prev(&c), p, w);
    lemma_eval_product_with_zero(left(left(sf)), is_extension_node(&c), p, w);
    lemma_eval_product_with_zero(left(sf), is_extension_c_row(&c), p, w);
    lemma_eval_product_with_zero(af, is_key_even(&c), p, w);
    lemma_eval_product_with_zero(product_of(af, is_key_even(&c)), is_long(&c), p, w);
    lemma_eval_product_with_zero(af, is_short(&c), p, w);
    lemma_eval_product_with_zero(sf, is_key_even(&c), p, w);
    lemma_eval_product_with_zero(product_of(sf, is_key_even(&c)), is_long(&c), p, w);
    lemma_eval_product_with_zero(sf, is_short(&c), p, w);
    assert forall|i: int| 0 <= i < g3.len() implies eval(#[trigger] g3[i].poly, p, w) == 0 by {
        lemma_eval_product_with_zero(left(g3[i].poly), right(g3[i].poly), p, w);
    }
    // long keys: the key is short
    lemma_long_group_off(c, r_table, p, w);
    // short keys with sel2
    let g6 = short_constraints(c, r_table);
    let sh = short_selector(&c);
    lemma_short_selector_is_one(c, p, w);
    lemma_eval_product_with_zero(sh, sel1(&c), p, w);
    let s2 = product_of(sh, sel2(&c));
    lemma_eval_product_of_ones(sh, sel2(&c), p, w);
    let k = cell(w, c.key_rlc, -21);
    let m = cell(w, c.key_rlc_mult, -21);
    let s = cell(w, c.s_rlp2, -1);
    let kc = cell(w, c.key_rlc, 0);
    let kb = cell(w, c.key_rlc, -17);
    let mn = cell(w, c.modified_node, -2);
    let r0 = value(r_table[0], p, w);
    // the key RLC
    let e = short_sel2_rlc(&c);
    let d = difference(s_rlp2_prev(&c), c16());
    assert(value(c16(), p, w) == 16);
    assert(value(s_rlp2_prev(&c), p, w) == s);
    assert(value(Expr::Negated(Box::new(c16())), p, w) == -16);
    assert(value(d, p, w) == s - 16);
    assert(value(product_of(c16(), d), p, w) == 16 * (s - 16));
    assert(value(key_rlc_mult_prev_level(&c), p, w) == m);
    assert(value(key_rlc_prev_level(&c), p, w) == k);
    let t = product_of(product_of(c16(), d), key_rlc_mult_prev_level(&c));
    assert(value(t, p, w) == 16 * (s - 16) * m);
    assert(e == sum_of(key_rlc_prev_level(&c), t));
    assert(value(e, p, w) == k + 16 * (s - 16) * m);
    lemma_eval_is_value(e, p, w);
    lemma_gated_on(s2, key_rlc_cur(&c), e, p, w);
    // the branch key RLC
    let bd = difference(key_rlc_branch(&c), key_rlc_cur(&c));
    let bp = product_of(modified_node_cur(&c), key_rlc_mult_prev_level(&c));
    assert(value(key_rlc_branch(&c), p, w) == kb);
    assert(value(key_rlc_cur(&c), p, w) == kc);
    assert(value(Expr::Negated(Box::new(key_rlc_cur(&c))), p, w) == -kc);
    assert(value(bd, p, w) == kb - kc);
    assert(value(modified_node_cur(&c), p, w) == mn);
    assert(value(bp, p, w) == mn * m);
    lemma_eval_is_value(bd, p, w);
    lemma_eval_is_value(bp, p, w);
    assert((kb - kc) % p == (mn * m) % p) by {
        lemma_sub_mod_noop(kb, kc, p);
        lemma_sub_mod_noop(kc + mn * m, kc, p);
    }
    lemma_gated_on(s2, bd, bp, p, w);
    // the branch multiplier
    let mp = product_of(key_rlc_mult_prev_level(&c), r_table[0]);
    assert(value(mp, p, w) == m * r0);
    lemma_eval_is_value(mp, p, w);
    lemma_gated_on(s2, key_rlc_mult_branch(&c), mp, p, w);
    assert forall|i: int| 0 <= i < g6.len() implies eval(#[trigger] g6[i].poly, p, w) == 0 by {
        if i < 3 {
            lemma_eval_product_with_zero(product_of(sh, sel1(&c)), right(g6[i].poly), p, w);
        }
    }
    lemma_satisfied_join(g1, g2, p, w);
    lemma_satisfied_join(g1 + g2, g3, p, w);
    lemma_satisfied_join(g1 + g2 + g3, long_even_constraints(c, r_table), p, w);
    lemma_satisfied_join(
        g1 + g2 + g3 + long_even_constraints(c, r_table),
        long_odd_constraints(c, r_table),
        p,
        w,
    );
    lemma_satisfied_join(
        g1 + g2 + g3 + long_even_constraints(c, r_table) + long_odd_constraints(c, r_table),
        g6,
        p,
        w,
    );
}

/// The values of the cells that the key constraints name.
pub(crate) proof fn lemma_named_cell_values(c: ExtensionNodeKeyColumns, p: int, w: Cells)
    ensures
        value(key_rlc_cur(&c), p, w) == cell(w, c.key_rlc, 0),
        value(key_rlc_prev_level(&c), p, w) == cell(w, c.key_rlc, -21),
        value(key_rlc_mult_prev_level(&c), p, w) == cell(w, c.key_rlc_mult, -21),
        value(key_rlc_branch(&c), p, w) == cell(w, c.key_rlc, -17),
        value(key_rlc_mult_branch(&c), p, w) == cell(w, c.key_rlc_mult, -17),
        value(mult_diff_branch(&c), p, w) == cell(w, c.mult_diff, -17),
        value(modified_node_cur(&c), p, w) == cell(w, c.modified_node, -2),
        value(s_rlp2_prev(&c), p, w) == cell(w, c.s_rlp2, -1),
        value(c16(), p, w) == 16,
        value(Expr::Negated(Box::new(c16())), p, w) == -16,
        value(Expr::Negated(Box::new(key_rlc_cur(&c))), p, w) == -cell(w, c.key_rlc, 0),
        value(difference(s_rlp2_prev(&c), c16()), p, w) == cell(w, c.s_rlp2, -1) - 16,
        value(difference(key_rlc_branch(&c), key_rlc_cur(&c)), p, w) == cell(w, c.key_rlc, -17)
            - cell(w, c.key_rlc, 0),
        value(product_of(c16(), modified_node_cur(&c)), p, w) == 16 * cell(w, c.modified_node, -2),
        value(product_of(product_of(c16(), modified_node_cur(&c)), key_rlc_mult_prev_level(&c)), p, w)
            == 16 * cell(w, c.modified_node, -2) * cell(w, c.key_rlc_mult, -21),
        value(product_of(modified_node_cur(&c), key_rlc_mult_prev_level(&c)), p, w) == cell(
            w,
            c.modified_node,
            -2,
        ) * cell(w, c.key_rlc_mult, -21),
        value(product_of(key_rlc_mult_prev_level(&c), mult_diff_branch(&c)), p, w) == cell(
            w,
            c.key_rlc_mult,
            -21,
        ) * cell(w, c.mult_diff, -17),
{
    assert(value(key_rlc_cur(&c), p, w) == cell(w, c.key_rlc, 0));
    assert(value(key_rlc_branch(&c), p, w) == cell(w, c.key_rlc, -17));
    assert(value(modified_node_cur(&c), p, w) == cell(w, c.modified_node, -2));
    assert(value(key_rlc_mult_prev_level(&c), p, w) == cell(w, c.key_rlc_mult, -21));
    assert(value(mult_diff_branch(&c), p, w) == cell(w, c.mult_diff, -17));
    assert(value(s_rlp2_prev(&c), p, w) == cell(w, c.s_rlp2, -1));
    assert(value(c16(), p, w) == 16);
    assert(value(Expr::Negated(Box::new(c16())), p, w) == -16);
    assert(value(Expr::Negated(Box::new(key_rlc_cur(&c))), p, w) == -cell(w, c.key_rlc, 0));
    assert(value(product_of(c16(), modified_node_cur(&c)), p, w) == 16 * cell(w, c.modified_node, -2));
}

/// At extension row C of an extension node whose key is one byte, below the
/// first level, a satisfied gate holds, modulo `p`:
/// with `sel1`, `key_rlc = key_rlc_prev_level + (s_rlp2 - 16) · key_rlc_mult_prev_level`,
/// `key_rlc_branch - key_rlc = 16 · modified_node · key_rlc_mult_prev_level · r_table[0]`;
/// with `sel2`, `key_rlc = key_rlc_prev_level + 16 · (s_rlp2 - 16) · key_rlc_mult_prev_level`,
/// `key_rlc_branch - key_rlc = modified_node · key_rlc_mult_prev_level`;
/// with either, `key_rlc_mult_branch = key_rlc_mult_prev_level · r_table[0]`.
/// (`s_rlp2 - 16` is the key nibble under the compact encoding.)
pub proof fn lemma_short_key_value(c: ExtensionNodeKeyColumns, r_table: Seq<Expr>, p: int, w: Cells)
    requires
        p > 1,
        gate_satisfied(c, r_table, p, w),
        eval(not_first_level(&c), p, w) == 1,
        eval(is_account_leaf_storage_codehash_prev(&c), p, w) == 0,
        eval(is_extension_node(&c), p, w) == 1,
        eval(is_extension_c_row(&c), p, w) == 1,
        eval(is_short(&c), p, w) == 1,
    ensures
        eval(sel1(&c), p, w) == 1 ==> {
            &&& cell(w, c.key_rlc, 0) % p == (cell(w, c.key_rlc, -21) + (cell(w, c.s_rlp2, -1) - 16)
                * cell(w, c.key_rlc_mult, -21)) % p
            &&& (cell(w, c.key_rlc, -17) - cell(w, c.key_rlc, 0)) % p == (16 * cell(
                w,
                c.modified_node,
                -2,
            ) * cell(w, c.key_rlc_mult, -21) * value(r_table[0], p, w)) % p
            &&& cell(w, c.key_rlc_mult, -17) % p == (cell(w, c.key_rlc_mult, -21) * value(
                r_table[0],
                p,
                w,
            )) % p
        },
        eval(sel2(&c), p, w) == 1 ==> {
            &&& cell(w, c.key_rlc, 0) % p == (cell(w, c.key_rlc, -21) + 16 * (cell(w, c.s_rlp2, -1)
                - 16) * cell(w, c.key_rlc_mult, -21)) % p
            &&& (cell(w, c.key_rlc, -17) - cell(w, c.key_rlc, 0)) % p == (cell(w, c.modified_node, -2)
                * cell(w, c.key_rlc_mult, -21)) % p
            &&& cell(w, c.key_rlc_mult, -17) % p == (cell(w, c.key_rlc_mult, -21) * value(
                r_table[0],
                p,
                w,
            )) % p
        },
{
    lemma_short_key(c, r_table, p, w);
    lemma_named_cell_values(c, p, w);
    let kp = key_rlc_prev_level(&c);
    let mp = key_rlc_mult_prev_level(&c);
    let d = difference(s_rlp2_prev(&c), c16());
    let bd = difference(key_rlc_branch(&c), key_rlc_cur(&c));
    let mr = product_of(mp, r_table[0]);
    lemma_eval_is_value(key_rlc_cur(&c), p, w);
    lemma_eval_is_value(key_rlc_mult_branch(&c), p, w);
    lemma_eval_is_value(bd, p, w);
    lemma_eval_is_value(mr, p, w);
    if eval(sel1(&c), p, w) == 1 {
        let e = short_sel1_rlc(&c);
        assert(value(product_of(d, mp), p, w) == (cell(w, c.s_rlp2, -1) - 16) * cell(w, c.key_rlc_mult, -21));
        assert(e == sum_of(kp, product_of(d, mp)));
        lemma_eval_is_value(e, p, w);
        let b = product_of(product_of(product_of(c16(), modified_node_cur(&c)), mp), r_table[0]);
        lemma_eval_is_value(b, p, w);
    }
    if eval(sel2(&c), p, w) == 1 {
        let e = short_sel2_rlc(&c);
        assert(value(product_of(c16(), d), p, w) == 16 * (cell(w, c.s_rlp2, -1) - 16));
        let t = product_of(product_of(c16(), d), mp);
        assert(value(t, p, w) == 16 * (cell(w, c.s_rlp2, -1) - 16) * cell(w, c.key_rlc_mult, -21));
        assert(e == sum_of(kp, t));
        lemma_eval_is_value(e, p, w);
        lemma_eval_is_value(product_of(modified_node_cur(&c), mp), p, w);
    }
}

/// At extension row C of an extension node whose key is one byte, at the first
/// level of an account proof or of a storage proof, a satisfied gate holds,
/// modulo `p`: `key_rlc = (s_rlp2 - 16) · 16`,
/// `key_rlc_branch = (s_rlp2 - 16) · 16 + modified_node` and
/// `key_rlc_mult_branch = r_table[0]`.
pub proof fn lemma_first_level_short_key_value(
    c: ExtensionNodeKeyColumns,
    r_table: Seq<Expr>,
    p: int,
    w: Cells,
)
    requires
        p > 1,
        gate_satisfied(c, r_table, p, w),
        eval(is_extension_node(&c), p, w) == 1,
        eval(is_extension_c_row(&c), p, w) == 1,
        eval(is_short(&c), p, w) == 1,
        // first level of an account proof
        eval(q_not_first(&c), p, w) == 1 && eval(is_branch_init_prev(&c), p, w) == 0 && eval(
            is_branch_child_prev(&c),
            p,
            w,
        ) == 0 && eval(not_first_level(&c), p, w) == 0
        // or first level of a storage proof
         || eval(not_first_level(&c), p, w) == 1 && eval(
            is_account_leaf_storage_codehash_prev(&c),
            p,
            w,
        ) == 1,
    ensures
        cell(w, c.key_rlc, 0) % p == ((cell(w, c.s_rlp2, -1) - 16) * 16) % p,
        cell(w, c.key_rlc, -17) % p == ((cell(w, c.s_rlp2, -1) - 16) * 16 + cell(
            w,
            c.modified_node,
            -2,
        )) % p,
        cell(w, c.key_rlc_mult, -17) % p == value(r_table[0], p, w) % p,
{
    if eval(not_first_level(&c), p, w) == 0 {
        lemma_account_first_level_key(c, r_table, p, w);
    } else {
        lemma_storage_first_level_key(c, r_table, p, w);
    }
    lemma_named_cell_values(c, p, w);
    let e = first_level_short_ext_rlc(&c);
    assert(value(e, p, w) == (cell(w, c.s_rlp2, -1) - 16) * 16);
    let b = first_level_short_branch_rlc(&c);
    assert(value(b, p, w) == (cell(w, c.s_rlp2, -1) - 16) * 16 + cell(w, c.modified_node, -2));
    lemma_eval_is_value(e, p, w);
    lemma_eval_is_value(b, p, w);
    lemma_eval_is_value(r_table[0], p, w);
    lemma_eval_is_value(key_rlc_cur(&c), p, w);
    lemma_eval_is_value(key_rlc_branch(&c), p, w);
    lemma_eval_is_value(key_rlc_mult_branch(&c), p, w);
}

/// At extension row C of an extension node with a long key, below the first
/// level, a satisfied gate holds, modulo `p`, the branch key RLC to the key
/// RLC plus the modified child nibble (times sixteen where it is the first of
/// its byte) times `key_rlc_mult_prev_level · mult_diff`, and the branch
/// multiplier to `key_rlc_mult_prev_level · mult_diff`, times `r_table[0]`
/// where the nibble is the first of its byte:
/// - even key, `sel1`: `16 · modified_node · mult · mult_diff`, `mult · mult_diff`;
/// - even key, `sel2`: `modified_node · mult · mult_diff`, `mult · mult_diff · r_table[0]`;
/// - odd key, `sel1`: `modified_node · mult · mult_diff`, `mult · mult_diff · r_table[0]`;
/// - odd key, `sel2`: `16 · modified_node · mult · mult_diff`, `mult · mult_diff`.
pub proof fn lemma_long_key_branch_value(
    c: ExtensionNodeKeyColumns,
    r_table: Seq<Expr>,
    p: int,
    w: Cells,
)
    requires
        p > 1,
        gate_satisfied(c, r_table, p, w),
        eval(not_first_level(&c), p, w) == 1,
        eval(is_account_leaf_storage_codehash_prev(&c), p, w) == 0,
        eval(is_extension_node(&c), p, w) == 1,
        eval(is_extension_c_row(&c), p, w) == 1,
        eval(is_long(&c), p, w) == 1,
    ensures
        ({
            let kc = cell(w, c.key_rlc, 0);
            let kb = cell(w, c.key_rlc, -17);
            let mb = cell(w, c.key_rlc_mult, -17);
            let m = cell(w, c.key_rlc_mult, -21);
            let md = cell(w, c.mult_diff, -17);
            let mn = cell(w, c.modified_node, -2);
            let r0 = value(r_table[0], p, w);
            let even = eval(is_key_even(&c), p, w) == 1;
            let odd = eval(is_key_odd(&c), p, w) == 1;
            let s1 = eval(sel1(&c), p, w) == 1;
            let s2 = eval(sel2(&c), p, w) == 1;
            &&& (even && s1 || odd && s2) ==> (kb - kc) % p == (16 * mn * m * md) % p && mb % p == (m
                * md) % p
            &&& (even && s2 || odd && s1) ==> (kb - kc) % p == (mn * m * md) % p && mb % p == (m * md
                * r0) % p
        }),
{
    lemma_named_cell_values(c, p, w);
    let mp = key_rlc_mult_prev_level(&c);
    let bd = difference(key_rlc_branch(&c), key_rlc_cur(&c));
    let x16 = product_of(product_of(product_of(c16(), modified_node_cur(&c)), mp), mult_diff_branch(&c));
    let x1 = product_of(product_of(modified_node_cur(&c), mp), mult_diff_branch(&c));
    let y1 = product_of(mp, mult_diff_branch(&c));
    let yr = product_of(product_of(mp, mult_diff_branch(&c)), r_table[0]);
    lemma_eval_is_value(bd, p, w);
    lemma_eval_is_value(x16, p, w);
    lemma_eval_is_value(x1, p, w);
    lemma_eval_is_value(y1, p, w);
    lemma_eval_is_value(yr, p, w);
    lemma_eval_is_value(key_rlc_mult_branch(&c), p, w);
    if eval(is_key_even(&c), p, w) == 1 {
        lemma_long_even_key(c, r_table, p, w);
    }
    if eval(is_key_odd(&c), p, w) == 1 {
        lemma_long_odd_key(c, r_table, p, w);
    }
}

/// The key RLC polynomial of a long even key with the nibble first in its byte
/// has the value `key_rlc_prev_level + key_rlc_mult_prev_level · (s_S[1] + Σ_{k=2}^{31} s_S[k] · r_table[k - 2])`.
pub(crate) proof fn lemma_long_even_sel1_rlc_value(
    c: ExtensionNodeKeyColumns,
    r_table: Seq<Expr>,
    p: int,
    w: Cells,
)
    requires
        p > 0,
    ensures
        eval(long_even_sel1_rlc(c, r_table), p, w) == (cell(w, c.key_rlc, -21) + cell(w, c.key_rlc_mult, -21) * (
        cell(w, c.s_advices@[1], -1) + row_s_sum(c, 2, 32, r_table, p, w))) % p,
{
    let e = long_even_sel1_rlc(c, r_table);
    lemma_eval_is_value(e, p, w);
    lemma_row_rlc_value(c, 2, 30, crate::key_cells::key_rlc_mult_prev_level(&c), r_table, p, w);
    let k = cell(w, c.key_rlc, -21);
    let m = cell(w, c.key_rlc_mult, -21);
    let s1 = cell(w, c.s_advices@[1], -1);
    let sum = row_s_sum(c, 2, 32, r_table, p, w);
    assert(c.s_advices@.subrange(2, HASH_WIDTH as int) == c.s_advices@.subrange(2int, 2int + 30int));
    assert(value(crate::key_cells::s_advice_prev(&c, 1), p, w) == s1);
    assert(value(crate::key_cells::key_rlc_mult_prev_level(&c), p, w) == m);
    let kp = crate::key_cells::key_rlc_prev_level(&c);
    let mp = crate::key_cells::key_rlc_mult_prev_level(&c);
    let head = crate::expr::sum_of(kp, crate::expr::product_of(crate::key_cells::s_advice_prev(&c, 1), mp));
    assert(value(kp, p, w) == k);
    assert(value(crate::expr::product_of(crate::key_cells::s_advice_prev(&c, 1), mp), p, w) == s1 * m);
    assert(value(head, p, w) == k + s1 * m);
    let tail = rlc_expr(c.s_advices@.subrange(2, HASH_WIDTH as int), 0, mp, -1i32, r_table);
    assert(value(tail, p, w) == sum * m);
    assert(e == crate::expr::sum_of(head, tail));
    assert(value(e, p, w) == k + s1 * m + sum * m);
    assert(k + s1 * m + sum * m == k + m * (s1 + sum)) by (nonlinear_arith);
}

/// The key RLC polynomial of a long odd key with the nibble second in its byte
/// has the value `key_rlc_prev_level + key_rlc_mult_prev_level · ((s_S[0] - 16) + Σ_{k=1}^{31} s_S[k] · r_table[k - 1])`.
pub(crate) proof fn lemma_long_odd_sel2_rlc_value(
    c: ExtensionNodeKeyColumns,
    r_table: Seq<Expr>,
    p: int,
    w: Cells,
)
    requires
        p > 0,
    ensures
        eval(long_odd_sel2_rlc(c, r_table), p, w) == (cell(w, c.key_rlc, -21) + cell(w, c.key_rlc_mult, -21) * (
        (cell(w, c.s_advices@[0], -1) - 16) + row_s_sum(c, 1, 32, r_table, p, w))) % p,
{
    let e = long_odd_sel2_rlc(c, r_table);
    lemma_eval_is_value(e, p, w);
    let mp = crate::key_cells::key_rlc_mult_prev_level(&c);
    lemma_row_rlc_tail(c, 1, mp, r_table, p, w);
    let k = cell(w, c.key_rlc, -21);
    let m = cell(w, c.key_rlc_mult, -21);
    let s0 = cell(w, c.s_advices@[0], -1);
    let sum = row_s_sum(c, 1, 32, r_table, p, w);
    let kp = crate::key_cells::key_rlc_prev_level(&c);
    let d = crate::expr::difference(crate::key_cells::s_advice_prev(&c, 0), crate::key_cells::c16());
    assert(value(kp, p, w) == k);
    assert(value(mp, p, w) == m);
    assert(value(crate::key_cells::c16(), p, w) == 16);
    assert(value(crate::key_cells::s_advice_prev(&c, 0), p, w) == s0);
    assert(value(Expr::Negated(Box::new(crate::key_cells::c16())), p, w) == -16);
    assert(value(d, p, w) == s0 - 16);
    assert(value(crate::expr::product_of(d, mp), p, w) == (s0 - 16) * m);
    let head = crate::expr::sum_of(kp, crate::expr::product_of(d, mp));
    assert(value(head, p, w) == k + (s0 - 16) * m);
    let tail = rlc_expr(c.s_advices@.subrange(1, HASH_WIDTH as int), 0, mp, -1i32, r_table);
    assert(e == crate::expr::sum_of(head, tail));
    assert(value(e, p, w) == k + (s0 - 16) * m + sum * m);
    assert(k + (s0 - 16) * m + sum * m == k + m * ((s0 - 16) + sum)) by (nonlinear_arith);
}

/// Where the bytes decompose into nibbles, the key RLC polynomial of a long
/// odd key with the nibble first in its byte has the value of the nibble-wise
/// RLC from `key_rlc_prev_level + 16 · (s_S[0] - 16) · key_rlc_mult_prev_level`.
pub(crate) proof fn lemma_long_odd_sel1_rlc_value(
    c: ExtensionNodeKeyColumns,
    r_table: Seq<Expr>,
    f: spec_fn(int) -> int,
    p: int,
    w: Cells,
)
    requires
        p > 1,
        p % 2 == 1,
        forall|ind: int|
            0 <= ind < key_bytes() ==> 0 <= #[trigger] f(ind) < p && cell(w, c.s_advices@[ind + 1], -1)
                % p == (16 * f(ind) + cell(w, c.s_advices@[ind], 0)) % p,
    ensures
        eval(long_odd_sel1_rlc(c, r_table), p, w) == nibble_rlc_target(
            c,
            cell(w, c.key_rlc, -21) + 16 * (cell(w, c.s_advices@[0], -1) - 16) * cell(
                w,
                c.key_rlc_mult,
                -21,
            ),
            key_bytes(),
            r_table,
            f,
            p,
            w,
        ) % p,
{
    lemma_bytes_as_values(c, f, p, w);
    let start = long_odd_sel1_start(&c);
    lemma_nibble_rlc_value(c, start, key_bytes(), r_table, f, p, w);
    let k = cell(w, c.key_rlc, -21);
    let m = cell(w, c.key_rlc_mult, -21);
    let s0 = cell(w, c.s_advices@[0], -1);
    let d = crate::expr::difference(s_advice_prev(&c, 0), c16());
    assert(value(c16(), p, w) == 16);
    assert(value(s_advice_prev(&c, 0), p, w) == s0);
    assert(value(Expr::Negated(Box::new(c16())), p, w) == -16);
    assert(value(d, p, w) == s0 - 16);
    assert(value(crate::expr::product_of(c16(), d), p, w) == 16 * (s0 - 16));
    assert(value(key_rlc_mult_prev_level(&c), p, w) == m);
    assert(value(key_rlc_prev_level(&c), p, w) == k);
    let t = crate::expr::product_of(crate::expr::product_of(c16(), d), key_rlc_mult_prev_level(&c));
    assert(value(t, p, w) == 16 * (s0 - 16) * m);
    assert(start == crate::expr::sum_of(key_rlc_prev_level(&c), t));
    assert(value(start, p, w) == k + 16 * (s0 - 16) * m);
}

/// Where the bytes decompose into nibbles, the key RLC polynomial of a long
/// even key with the nibble second in its byte has the value of the nibble-wise
/// RLC from `key_rlc_prev_level`.
pub(crate) proof fn lemma_long_even_sel2_rlc_value(
    c: ExtensionNodeKeyColumns,
    r_table: Seq<Expr>,
    f: spec_fn(int) -> int,
    p: int,
    w: Cells,
)
    requires
        p > 1,
        p % 2 == 1,
        forall|ind: int|
            0 <= ind < key_bytes() ==> 0 <= #[trigger] f(ind) < p && cell(w, c.s_advices@[ind + 1], -1)
                % p == (16 * f(ind) + cell(w, c.s_advices@[ind], 0)) % p,
    ensures
        eval(long_even_sel2_rlc(c, r_table), p, w) == nibble_rlc_target(
            c,
            cell(w, c.key_rlc, -21),
            key_bytes(),
            r_table,
            f,
            p,
            w,
        ) % p,
{
    lemma_bytes_as_values(c, f, p, w);
    let start = key_rlc_prev_level(&c);
    lemma_nibble_rlc_value(c, start, key_bytes(), r_table, f, p, w);
    assert(value(start, p, w) == cell(w, c.key_rlc, -21));
}

} // verus!
