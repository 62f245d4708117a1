//! Random linear combinations of the cells of a row.
use vstd::prelude::*;
use vstd::arithmetic::div_mod::*;
use crate::expr::{Expr, Cells, eval, sum_of, product_of};

verus! {

/// The polynomial `Σ_k advices[k] · r_table[rind + k] · mult`, over the cells of
/// the columns `advices` at the given rotation, summed from the left starting at zero.
pub open spec fn rlc_expr(
    advices: Seq<usize>,
    rind: int,
    mult: Expr,
    rotation: i32,
    r_table: Seq<Expr>,
) -> Expr
    decreases advices.len(),
{
    if advices.len() == 0 {
        Expr::Constant(0)
    } else {
        let k = advices.len() - 1;
        sum_of(
            rlc_expr(advices.take(k), rind, mult, rotation, r_table),
            product_of(product_of(Expr::Advice(advices[k], rotation), r_table[rind + k]), mult),
        )
    }
}

/// The number `Σ_k cell(advices[k]) · r_table[rind + k]` for given cell values.
pub open spec fn rlc_value(
    advices: Seq<usize>,
    rind: int,
    rotation: i32,
    r_table: Seq<Expr>,
    p: int,
    w: Cells,
) -> int
    decreases advices.len(),
{
    if advices.len() == 0 {
        0
    } else {
        let k = advices.len() - 1;
        rlc_value(advices.take(k), rind, rotation, r_table, p, w) + eval(
            Expr::Advice(advices[k], rotation),
            p,
            w,
        ) * eval(r_table[rind + k], p, w)
    }
}

/// The random linear combination of the cells of `advices` at `rotation`,
/// the `k`-th weighted by `r_table[rind + k]`, the whole multiplied by `mult`.
pub fn compute_rlc(
    advices: Vec<usize>,
    rind: usize,
    mult: Expr,
    rotation: i32,
    r_table: &Vec<Expr>,
) -> (rlc: Expr)
    requires
        rind + advices.len() <= r_table.len(),
    ensures
        rlc == rlc_expr(advices@, rind as int, mult, rotation, r_table@),
{
    let mut rlc = Expr::Constant(0);
    let mut k: usize = 0;
    assert(advices@.take(0) =~= Seq::<usize>::empty());
    while k < advices.len()
        invariant
            k <= advices.len(),
            rind + advices.len() <= r_table.len(),
            rlc == rlc_expr(advices@.take(k as int), rind as int, mult, rotation, r_table@),
        decreases advices.len() - k,
    {
        let s = Expr::Advice(advices[k], rotation);
        let term = product_of(product_of(s, r_table[rind + k].copy()), mult.copy());
        rlc = sum_of(rlc, term);
        assert(advices@.take(k + 1).take(k as int) =~= advices@.take(k as int));
        k = k + 1;
    }
    assert(advices@.take(advices.len() as int) =~= advices@);
    rlc
}

/// The random linear combination evaluates, in the field, to the weighted sum
/// of the cells times the multiplier.
pub proof fn lemma_rlc_value(
    advices: Seq<usize>,
    rind: int,
    mult: Expr,
    rotation: i32,
    r_table: Seq<Expr>,
    p: int,
    w: Cells,
)
    requires
        p > 1,
    ensures
        eval(rlc_expr(advices, rind, mult, rotation, r_table), p, w) == (rlc_value(
            advices,
            rind,
            rotation,
            r_table,
            p,
            w,
        ) * eval(mult, p, w)) % p,
    decreases advices.len(),
{
    let m = eval(mult, p, w);
    if advices.len() == 0 {
        lemma_small_mod(0nat, p as nat);
        assert(0 * m == 0);
    } else {
        let k = advices.len() - 1;
        let prev = advices.take(k);
        lemma_rlc_value(prev, rind, mult, rotation, r_table, p, w);
        let v = rlc_value(prev, rind, rotation, r_table, p, w);
        let a = eval(Expr::Advice(advices[k], rotation), p, w);
        let r = eval(r_table[rind + k], p, w);
        let ar = (a * r) % p;
        // eval of the new term: ((a * r) % p * m) % p == (a * r * m) % p
        lemma_mul_mod_noop_left(a * r, m, p);
        // sum of the two parts
        lemma_add_mod_noop(v * m, a * r * m, p);
        lemma_mod_twice(v * m, p);
        lemma_mod_twice(a * r * m, p);
        assert((v * m) + (a * r * m) == (v + a * r) * m) by (nonlinear_arith);
        assert(rlc_value(advices, rind, rotation, r_table, p, w) == v + a * r);
        assert(eval(product_of(Expr::Advice(advices[k], rotation), r_table[rind + k]), p, w) == ar);
        assert(eval(product_of(product_of(Expr::Advice(advices[k], rotation), r_table[rind + k]), mult), p, w) == (a * r * m) % p);
        assert(eval(rlc_expr(prev, rind, mult, rotation, r_table), p, w) == (v * m) % p);
    }
}

} // verus!
