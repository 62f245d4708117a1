//! The extension-node key chip: the constraints that tie the key RLC of a
//! trie path to the key bytes of the extension nodes on it.
//!
//! Its gate holds, at extension row C:
//! - the key RLC, its multiplier and `mult_diff` stay the same over the child
//!   rows of a branch;
//! - where the branch has no extension node, the extension rows repeat the key RLC;
//! - where it has one, the key RLC in extension row C adds the extension key
//!   to the key RLC of the previous level, and the branch rows add the
//!   modified child nibble after it, for each kind of key (first level of an
//!   account or a storage proof, long even, long odd, short) and each
//!   position of the nibble (`sel1`, `sel2`).
//!
//! Its lookups hold the key length and `mult_diff` of long keys to the table
//! of powers of the randomness, and each nibble of long keys to `0..16`.
use std::marker::PhantomData;
use vstd::prelude::*;
use crate::expr::{Expr, sum_of, difference, product_of};
use crate::helpers::compute_rlc;
use crate::param::{HASH_WIDTH, FixedTableTag};
use crate::key_cells::{
    ExtensionNodeKeyColumns, one, c16, c128, q_not_first, not_first_level, is_key_even,
    is_key_odd, is_short, is_long, sel1, sel2, modified_node_cur, is_extension_s_row,
    is_extension_c_row, key_rlc_prev, key_rlc_prev_level, key_rlc_cur, mult_diff_cur,
    mult_diff_prev, key_rlc_mult_prev, key_rlc_mult_prev_level, key_rlc_mult_cur, key_rlc_branch,
    key_rlc_mult_branch, mult_diff_branch, s_rlp2_prev, s_advice_prev, s_advice_cur, gated,
    branch_children_selector, not_extension_selector, account_first_selector,
    storage_first_selector, long_selector, short_selector, lookup_long_selector, first_nibble,
    first_level_short_ext_rlc, first_level_short_branch_rlc, short_sel1_rlc, short_sel2_rlc,
    long_odd_sel1_start, nibble_rlc_step, nibble_rlc, first_level_long_even_rlc,
    long_even_sel1_rlc, long_even_sel2_rlc, long_odd_sel1_rlc, long_odd_sel2_rlc,
};

verus! {

/// The configuration of the chip; it holds no columns of its own.
#[derive(Clone, Copy, Debug)]
pub struct ExtensionNodeKeyConfig {}

/// The chip, over the field `F` of the proof system.
pub struct ExtensionNodeKeyChip<F> {
    config: ExtensionNodeKeyConfig,
    _marker: PhantomData<F>,
}

/// A named polynomial that must vanish in every row.
#[derive(Debug, PartialEq, Eq)]
pub struct Constraint {
    pub name: &'static str,
    pub poly: Expr,
}

/// What the chip adds to a constraint system: one gate of named polynomials
/// and lookups, each a list of pairs (input polynomial, table polynomial).
pub struct ExtensionNodeKeyConstraints {
    pub config: ExtensionNodeKeyConfig,
    pub gate_name: &'static str,
    pub gate: Vec<Constraint>,
    pub lookups: Vec<Vec<(Expr, Expr)>>,
}

/// The number of bytes of an extension key after its first byte.
pub open spec fn key_bytes() -> nat {
    (HASH_WIDTH - 1) as nat
}

/// Key RLC, multiplier and `mult_diff` are the same in consecutive branch child rows.
pub open spec fn branch_children_constraints(c: ExtensionNodeKeyColumns) -> Seq<Constraint> {
    let sel = branch_children_selector(&c);
    seq![
        Constraint {
            name: "branch key RLC same over all branch children with index > 0",
            poly: gated(sel, key_rlc_cur(&c), key_rlc_prev(&c)),
        },
        Constraint {
            name: "branch key RLC MULT same over all branch children with index > 0",
            poly: gated(sel, key_rlc_mult_cur(&c), key_rlc_mult_prev(&c)),
        },
        Constraint {
            name: "branch key MULT diff same over all branch children with index > 0",
            poly: gated(sel, mult_diff_cur(&c), mult_diff_prev(&c)),
        },
    ]
}

/// The extension rows of a branch without extension node repeat the key RLC and multiplier.
pub open spec fn not_extension_constraints(c: ExtensionNodeKeyColumns) -> Seq<Constraint> {
    let s_sel = not_extension_selector(&c, is_extension_s_row(&c));
    let c_sel = not_extension_selector(&c, is_extension_c_row(&c));
    seq![
        Constraint {
            name: "extension node row S key RLC is the same as branch key RLC when NOT extension node",
            poly: gated(s_sel, key_rlc_cur(&c), key_rlc_prev(&c)),
        },
        Constraint {
            name: "extension node row S key RLC mult is the same as branch key RLC when NOT extension node",
            poly: gated(s_sel, key_rlc_mult_cur(&c), key_rlc_mult_prev(&c)),
        },
        Constraint {
            name: "extension node row C key RLC is the same as branch key RLC when NOT extension node",
            poly: gated(c_sel, key_rlc_cur(&c), key_rlc_prev(&c)),
        },
        Constraint {
            name: "extension node row C key RLC mult is the same as branch key RLC when NOT extension node",
            poly: gated(c_sel, key_rlc_mult_cur(&c), key_rlc_mult_prev(&c)),
        },
    ]
}

/// The key RLC of extension nodes at the first level of an account or a storage proof.
pub open spec fn first_level_constraints(c: ExtensionNodeKeyColumns, r_table: Seq<Expr>) -> Seq<Constraint> {
    let af = account_first_selector(&c);
    let sf = storage_first_selector(&c);
    let long_even_rlc = first_level_long_even_rlc(c, r_table);
    seq![
        Constraint {
            name: "account first level long even",
            poly: gated(
                product_of(product_of(af, is_key_even(&c)), is_long(&c)),
                long_even_rlc,
                key_rlc_cur(&c),
            ),
        },
        Constraint {
            name: "account first level short extension",
            poly: gated(product_of(af, is_short(&c)), first_level_short_ext_rlc(&c), key_rlc_cur(&c)),
        },
        Constraint {
            name: "account first level short branch",
            poly: gated(
                product_of(af, is_short(&c)),
                first_level_short_branch_rlc(&c),
                key_rlc_branch(&c),
            ),
        },
        Constraint {
            name: "account first level short branch mult",
            poly: gated(product_of(af, is_short(&c)), r_table[0], key_rlc_mult_branch(&c)),
        },
        Constraint {
            name: "storage first level long even",
            poly: gated(
                product_of(product_of(sf, is_key_even(&c)), is_long(&c)),
                long_even_rlc,
                key_rlc_cur(&c),
            ),
        },
        Constraint {
            name: "storage first level short extension",
            poly: gated(product_of(sf, is_short(&c)), first_level_short_ext_rlc(&c), key_rlc_cur(&c)),
        },
        Constraint {
            name: "storage first level short branch",
            poly: gated(
                product_of(sf, is_short(&c)),
                first_level_short_branch_rlc(&c),
                key_rlc_branch(&c),
            ),
        },
        Constraint {
            name: "storage first level short branch mult",
            poly: gated(product_of(sf, is_short(&c)), r_table[0], key_rlc_mult_branch(&c)),
        },
    ]
}

/// The constraint that byte `ind + 1` of extension row S is `16 · first + second`,
/// with the second nibble in cell `ind` of extension row C.
pub open spec fn nibble_constraint(
    name: &'static str,
    sel: Expr,
    c: ExtensionNodeKeyColumns,
    ind: int,
) -> Constraint {
    Constraint {
        name,
        poly: gated(
            sel,
            difference(
                s_advice_prev(&c, (ind + 1) as usize),
                product_of(first_nibble(&c, ind as usize), c16()),
            ),
            s_advice_cur(&c, ind as usize),
        ),
    }
}

/// The nibble constraints for the first `n` bytes after the first one.
pub open spec fn nibble_constraints(
    name: &'static str,
    sel: Expr,
    c: ExtensionNodeKeyColumns,
    n: nat,
) -> Seq<Constraint> {
    Seq::new(n, |ind: int| nibble_constraint(name, sel, c, ind))
}

/// Extension nodes with a long key of an even number of nibbles.
pub open spec fn long_even_constraints(c: ExtensionNodeKeyColumns, r_table: Seq<Expr>) -> Seq<Constraint> {
    let le = long_selector(&c, is_key_even(&c));
    let s1 = product_of(le, sel1(&c));
    let s2 = product_of(le, sel2(&c));
    seq![
        Constraint {
            name: "long even sel1 extension",
            poly: gated(s1, key_rlc_cur(&c), long_even_sel1_rlc(c, r_table)),
        },
        Constraint {
            name: "long even sel1 branch",
            poly: gated(
                s1,
                difference(key_rlc_branch(&c), key_rlc_cur(&c)),
                product_of(
                    product_of(product_of(c16(), modified_node_cur(&c)), key_rlc_mult_prev_level(&c)),
                    mult_diff_branch(&c),
                ),
            ),
        },
        Constraint {
            name: "long even sel1 branch mult",
            poly: gated(
                s1,
                key_rlc_mult_branch(&c),
                product_of(key_rlc_mult_prev_level(&c), mult_diff_branch(&c)),
            ),
        },
    ] + nibble_constraints("long even sel2 nibble correspond to byte", s2, c, key_bytes()) + seq![
        Constraint {
            name: "long even sel2 extension",
            poly: gated(s2, key_rlc_cur(&c), long_even_sel2_rlc(c, r_table)),
        },
        Constraint {
            name: "long even sel2 branch",
            poly: gated(
                s2,
                difference(key_rlc_branch(&c), key_rlc_cur(&c)),
                product_of(
                    product_of(modified_node_cur(&c), key_rlc_mult_prev_level(&c)),
                    mult_diff_branch(&c),
                ),
            ),
        },
        Constraint {
            name: "long even sel2 branch mult",
            poly: gated(
                s2,
                key_rlc_mult_branch(&c),
                product_of(
                    product_of(key_rlc_mult_prev_level(&c), mult_diff_branch(&c)),
                    r_table[0],
                ),
            ),
        },
    ]
}

/// Extension nodes with a long key of an odd number of nibbles.
pub open spec fn long_odd_constraints(c: ExtensionNodeKeyColumns, r_table: Seq<Expr>) -> Seq<Constraint> {
    let lo = long_selector(&c, is_key_odd(&c));
    let s1 = product_of(lo, sel1(&c));
    let s2 = product_of(lo, sel2(&c));
    nibble_constraints("long odd sel1 nibble correspond to byte", s1, c, key_bytes()) + seq![
        Constraint {
            name: "long odd sel1 extension",
            poly: gated(s1, key_rlc_cur(&c), long_odd_sel1_rlc(c, r_table)),
        },
        Constraint {
            name: "long odd sel1 branch",
            poly: gated(
                s1,
                difference(key_rlc_branch(&c), key_rlc_cur(&c)),
                product_of(
                    product_of(modified_node_cur(&c), key_rlc_mult_prev_level(&c)),
                    mult_diff_branch(&c),
                ),
            ),
        },
        Constraint {
            name: "long odd sel1 branch mult",
            poly: gated(
                s1,
                key_rlc_mult_branch(&c),
                product_of(
                    product_of(key_rlc_mult_prev_level(&c), mult_diff_branch(&c)),
                    r_table[0],
                ),
            ),
        },
        Constraint {
            name: "long odd sel2 extension",
            poly: gated(s2, key_rlc_cur(&c), long_odd_sel2_rlc(c, r_table)),
        },
        Constraint {
            name: "long odd sel2 branch",
            poly: gated(
                s2,
                difference(key_rlc_branch(&c), key_rlc_cur(&c)),
                product_of(
                    product_of(product_of(c16(), modified_node_cur(&c)), key_rlc_mult_prev_level(&c)),
                    mult_diff_branch(&c),
                ),
            ),
        },
        Constraint {
            name: "long odd sel2 branch mult",
            poly: gated(
                s2,
                key_rlc_mult_branch(&c),
                product_of(key_rlc_mult_prev_level(&c), mult_diff_branch(&c)),
            ),
        },
    ]
}

/// Extension nodes with a key of one byte below the first level.
pub open spec fn short_constraints(c: ExtensionNodeKeyColumns, r_table: Seq<Expr>) -> Seq<Constraint> {
    let sh = short_selector(&c);
    let s1 = product_of(sh, sel1(&c));
    let s2 = product_of(sh, sel2(&c));
    seq![
        Constraint {
            name: "short sel1 extension",
            poly: gated(s1, key_rlc_cur(&c), short_sel1_rlc(&c)),
        },
        Constraint {
            name: "short sel1 branch",
            poly: gated(
                s1,
                difference(key_rlc_branch(&c), key_rlc_cur(&c)),
                product_of(
                    product_of(product_of(c16(), modified_node_cur(&c)), key_rlc_mult_prev_level(&c)),
                    r_table[0],
                ),
            ),
        },
        Constraint {
            name: "short sel1 branch mult",
            poly: gated(
                s1,
                key_rlc_mult_branch(&c),
                product_of(key_rlc_mult_prev_level(&c), r_table[0]),
            ),
        },
        Constraint {
            name: "short sel2 extension",
            poly: gated(s2, key_rlc_cur(&c), short_sel2_rlc(&c)),
        },
        Constraint {
            name: "short sel2 branch",
            poly: gated(
                s2,
                difference(key_rlc_branch(&c), key_rlc_cur(&c)),
                product_of(modified_node_cur(&c), key_rlc_mult_prev_level(&c)),
            ),
        },
        Constraint {
            name: "short sel2 branch mult",
            poly: gated(
                s2,
                key_rlc_mult_branch(&c),
                product_of(key_rlc_mult_prev_level(&c), r_table[0]),
            ),
        },
    ]
}

/// All polynomials of the chip's gate, in order.
pub open spec fn gate_constraints(c: ExtensionNodeKeyColumns, r_table: Seq<Expr>) -> Seq<Constraint> {
    branch_children_constraints(c) + not_extension_constraints(c) + first_level_constraints(
        c,
        r_table,
    ) + long_even_constraints(c, r_table) + long_odd_constraints(c, r_table) + short_constraints(
        c,
        r_table,
    )
}

/// The sum of the four long-key selectors, by key parity and nibble position.
pub open spec fn long_selectors_sum(c: ExtensionNodeKeyColumns) -> Expr {
    let le = lookup_long_selector(&c, is_key_even(&c));
    let lo = lookup_long_selector(&c, is_key_odd(&c));
    sum_of(
        sum_of(sum_of(product_of(le, sel1(&c)), product_of(le, sel2(&c))), product_of(lo, sel1(&c))),
        product_of(lo, sel2(&c)),
    )
}

/// The selector of the nibble range lookups: long even keys with `sel2`, long odd keys with `sel1`.
pub open spec fn nibble_lookup_selector(c: ExtensionNodeKeyColumns) -> Expr {
    sum_of(
        product_of(lookup_long_selector(&c, is_key_even(&c)), sel2(&c)),
        product_of(lookup_long_selector(&c, is_key_odd(&c)), sel1(&c)),
    )
}

/// The lookup of the key length of a long key, with its `mult_diff`, in the table of powers.
pub open spec fn mult_diff_lookup(c: ExtensionNodeKeyColumns) -> Seq<(Expr, Expr)> {
    let sum = long_selectors_sum(c);
    let key_len = difference(difference(s_rlp2_prev(&c), c128()), one());
    seq![
        (Expr::Constant(FixedTableTag::RMult.value()), Expr::Fixed(c.fixed_table[0], 0i32)),
        (product_of(sum, key_len), Expr::Fixed(c.fixed_table[1], 0i32)),
        (product_of(sum, mult_diff_branch(&c)), Expr::Fixed(c.fixed_table[2], 0i32)),
    ]
}

/// The lookup of the second nibble in cell `ind` of extension row C in `0..16`.
pub open spec fn second_nibble_lookup(c: ExtensionNodeKeyColumns, ind: int) -> Seq<(Expr, Expr)> {
    seq![
        (Expr::Constant(FixedTableTag::Range16.value()), Expr::Fixed(c.fixed_table[0], 0i32)),
        (
            product_of(nibble_lookup_selector(c), s_advice_cur(&c, ind as usize)),
            Expr::Fixed(c.fixed_table[1], 0i32),
        ),
    ]
}

/// The lookup of the first nibble of byte `ind + 1` of extension row S in `0..16`.
pub open spec fn first_nibble_lookup(c: ExtensionNodeKeyColumns, ind: int) -> Seq<(Expr, Expr)> {
    seq![
        (Expr::Constant(FixedTableTag::Range16.value()), Expr::Fixed(c.fixed_table[0], 0i32)),
        (
            product_of(nibble_lookup_selector(c), first_nibble(&c, ind as usize)),
            Expr::Fixed(c.fixed_table[1], 0i32),
        ),
    ]
}

/// All lookups, in order.
pub open spec fn lookups(c: ExtensionNodeKeyColumns) -> Seq<Seq<(Expr, Expr)>> {
    seq![mult_diff_lookup(c)] + Seq::new(key_bytes(), |ind: int| second_nibble_lookup(c, ind))
        + Seq::new(key_bytes(), |ind: int| first_nibble_lookup(c, ind))
}


/// The column indices `s[start..]`, in order.
fn columns_from(s: &[usize; HASH_WIDTH], start: usize) -> (res: Vec<usize>)
    requires
        start <= HASH_WIDTH,
    ensures
        res@ == s@.subrange(start as int, HASH_WIDTH as int),
{
    let mut res: Vec<usize> = Vec::new();
    let mut i: usize = start;
    while i < HASH_WIDTH
        invariant
            start <= i <= HASH_WIDTH,
            res@ == s@.subrange(start as int, i as int),
        decreases HASH_WIDTH - i,
    {
        res.push(s[i]);
        assert(res@ =~= s@.subrange(start as int, i + 1));
        i = i + 1;
    }
    res
}

fn build_branch_children_constraints(c: &ExtensionNodeKeyColumns) -> (res: Vec<Constraint>)
    ensures
        res@ == branch_children_constraints(*c),
{
    let sel = branch_children_selector(c);
    let mut res: Vec<Constraint> = Vec::new();
    res.push(
        Constraint {
            name: "branch key RLC same over all branch children with index > 0",
            poly: gated(sel.copy(), key_rlc_cur(c), key_rlc_prev(c)),
        },
    );
    res.push(
        Constraint {
            name: "branch key RLC MULT same over all branch children with index > 0",
            poly: gated(sel.copy(), key_rlc_mult_cur(c), key_rlc_mult_prev(c)),
        },
    );
    res.push(
        Constraint {
            name: "branch key MULT diff same over all branch children with index > 0",
            poly: gated(sel, mult_diff_cur(c), mult_diff_prev(c)),
        },
    );
    assert(res@ =~= branch_children_constraints(*c));
    res
}

fn build_not_extension_constraints(c: &ExtensionNodeKeyColumns) -> (res: Vec<Constraint>)
    ensures
        res@ == not_extension_constraints(*c),
{
    let s_sel = not_extension_selector(c, is_extension_s_row(c));
    let c_sel = not_extension_selector(c, is_extension_c_row(c));
    let mut res: Vec<Constraint> = Vec::new();
    res.push(
        Constraint {
            name: "extension node row S key RLC is the same as branch key RLC when NOT extension node",
            poly: gated(s_sel.copy(), key_rlc_cur(c), key_rlc_prev(c)),
        },
    );
    res.push(
        Constraint {
            name: "extension node row S key RLC mult is the same as branch key RLC when NOT extension node",
            poly: gated(s_sel, key_rlc_mult_cur(c), key_rlc_mult_prev(c)),
        },
    );
    res.push(
        Constraint {
            name: "extension node row C key RLC is the same as branch key RLC when NOT extension node",
            poly: gated(c_sel.copy(), key_rlc_cur(c), key_rlc_prev(c)),
        },
    );
    res.push(
        Constraint {
            name: "extension node row C key RLC mult is the same as branch key RLC when NOT extension node",
            poly: gated(c_sel, key_rlc_mult_cur(c), key_rlc_mult_prev(c)),
        },
    );
    assert(res@ =~= not_extension_constraints(*c));
    res
}

fn build_first_level_constraints(c: &ExtensionNodeKeyColumns, r_table: &Vec<Expr>) -> (res: Vec<
    Constraint,
>)
    requires
        r_table.len() >= HASH_WIDTH - 1,
    ensures
        res@ == first_level_constraints(*c, r_table@),
{
    let af = account_first_selector(c);
    let sf = storage_first_selector(c);
    // skip the first byte cell: it holds no key nibbles
    let rlc = compute_rlc(columns_from(&c.s_advices, 1), 0, one(), -1, r_table);
    let long_even_rlc = sum_of(
        sum_of(s_advice_prev(c, 1), rlc),
        product_of(modified_node_cur(c), c16()),
    );
    let mut res: Vec<Constraint> = Vec::new();
    res.push(
        Constraint {
            name: "account first level long even",
            poly: gated(
                product_of(product_of(af.copy(), is_key_even(c)), is_long(c)),
                long_even_rlc.copy(),
                key_rlc_cur(c),
            ),
        },
    );
    res.push(
        Constraint {
            name: "account first level short extension",
            poly: gated(product_of(af.copy(), is_short(c)), first_level_short_ext_rlc(c), key_rlc_cur(c)),
        },
    );
    res.push(
        Constraint {
            name: "account first level short branch",
            poly: gated(
                product_of(af.copy(), is_short(c)),
                first_level_short_branch_rlc(c),
                key_rlc_branch(c),
            ),
        },
    );
    res.push(
        Constraint {
            name: "account first level short branch mult",
            poly: gated(product_of(af, is_short(c)), r_table[0].copy(), key_rlc_mult_branch(c)),
        },
    );
    res.push(
        Constraint {
            name: "storage first level long even",
            poly: gated(
                product_of(product_of(sf.copy(), is_key_even(c)), is_long(c)),
                long_even_rlc,
                key_rlc_cur(c),
            ),
        },
    );
    res.push(
        Constraint {
            name: "storage first level short extension",
            poly: gated(product_of(sf.copy(), is_short(c)), first_level_short_ext_rlc(c), key_rlc_cur(c)),
        },
    );
    res.push(
        Constraint {
            name: "storage first level short branch",
            poly: gated(
                product_of(sf.copy(), is_short(c)),
                first_level_short_branch_rlc(c),
                key_rlc_branch(c),
            ),
        },
    );
    res.push(
        Constraint {
            name: "storage first level short branch mult",
            poly: gated(product_of(sf, is_short(c)), r_table[0].copy(), key_rlc_mult_branch(c)),
        },
    );
    assert(res@ =~= first_level_constraints(*c, r_table@));
    res
}

/// The nibble constraints of a long key, and its nibble-wise RLC from `start`.
fn build_nibble_constraints(
    name: &'static str,
    sel: &Expr,
    c: &ExtensionNodeKeyColumns,
    start: Expr,
    r_table: &Vec<Expr>,
) -> (res: (Vec<Constraint>, Expr))
    requires
        r_table.len() >= HASH_WIDTH - 1,
    ensures
        res.0@ == nibble_constraints(name, *sel, *c, key_bytes()),
        res.1 == nibble_rlc(*c, start, key_bytes(), r_table@),
{
    let ghost first = start;
    let mut constraints: Vec<Constraint> = Vec::new();
    let mut rlc = start;
    let mut ind: usize = 0;
    while ind < HASH_WIDTH - 1
        invariant
            ind <= HASH_WIDTH - 1,
            r_table.len() >= HASH_WIDTH - 1,
            constraints@ == nibble_constraints(name, *sel, *c, ind as nat),
            rlc == nibble_rlc(*c, first, ind as nat, r_table@),
        decreases HASH_WIDTH - 1 - ind,
    {
        let s = s_advice_prev(c, ind + 1);
        let second_nibble = s_advice_cur(c, ind);
        let first_nibble = first_nibble(c, ind);
        // the first nibble and the second nibble are held to 0..16 by the lookups
        constraints.push(
            Constraint {
                name,
                poly: gated(sel.copy(), difference(s, product_of(first_nibble, c16())), second_nibble),
            },
        );
        rlc = nibble_rlc_step(c, rlc, ind, r_table[ind].copy());
        assert(constraints@ =~= nibble_constraints(name, *sel, *c, (ind + 1) as nat));
        ind = ind + 1;
    }
    (constraints, rlc)
}

fn build_long_even_constraints(c: &ExtensionNodeKeyColumns, r_table: &Vec<Expr>) -> (res: Vec<
    Constraint,
>)
    requires
        r_table.len() >= HASH_WIDTH - 1,
    ensures
        res@ == long_even_constraints(*c, r_table@),
{
    let le = long_selector(c, is_key_even(c));
    let s1 = product_of(le.copy(), sel1(c));
    let s2 = product_of(le, sel2(c));
    // skip the first byte cell (no key nibbles) and the second one (weighted by the multiplier alone)
    let rlc = compute_rlc(columns_from(&c.s_advices, 2), 0, key_rlc_mult_prev_level(c), -1, r_table);
    let sel1_rlc = sum_of(
        sum_of(key_rlc_prev_level(c), product_of(s_advice_prev(c, 1), key_rlc_mult_prev_level(c))),
        rlc,
    );
    let mut res: Vec<Constraint> = Vec::new();
    res.push(
        Constraint {
            name: "long even sel1 extension",
            poly: gated(s1.copy(), key_rlc_cur(c), sel1_rlc),
        },
    );
    res.push(
        Constraint {
            name: "long even sel1 branch",
            poly: gated(
                s1.copy(),
                difference(key_rlc_branch(c), key_rlc_cur(c)),
                product_of(
                    product_of(product_of(c16(), modified_node_cur(c)), key_rlc_mult_prev_level(c)),
                    mult_diff_branch(c),
                ),
            ),
        },
    );
    res.push(
        Constraint {
            name: "long even sel1 branch mult",
            poly: gated(s1, key_rlc_mult_branch(c), product_of(key_rlc_mult_prev_level(c), mult_diff_branch(c))),
        },
    );
    let (mut nibbles, sel2_rlc) = build_nibble_constraints(
        "long even sel2 nibble correspond to byte",
        &s2,
        c,
        key_rlc_prev_level(c),
        r_table,
    );
    res.append(&mut nibbles);
    res.push(
        Constraint {
            name: "long even sel2 extension",
            poly: gated(s2.copy(), key_rlc_cur(c), sel2_rlc),
        },
    );
    res.push(
        Constraint {
            name: "long even sel2 branch",
            poly: gated(
                s2.copy(),
                difference(key_rlc_branch(c), key_rlc_cur(c)),
                product_of(product_of(modified_node_cur(c), key_rlc_mult_prev_level(c)), mult_diff_branch(c)),
            ),
        },
    );
    res.push(
        Constraint {
            name: "long even sel2 branch mult",
            poly: gated(
                s2,
                key_rlc_mult_branch(c),
                product_of(product_of(key_rlc_mult_prev_level(c), mult_diff_branch(c)), r_table[0].copy()),
            ),
        },
    );
    assert(res@ =~= long_even_constraints(*c, r_table@));
    res
}

fn build_long_odd_constraints(c: &ExtensionNodeKeyColumns, r_table: &Vec<Expr>) -> (res: Vec<
    Constraint,
>)
    requires
        r_table.len() >= HASH_WIDTH - 1,
    ensures
        res@ == long_odd_constraints(*c, r_table@),
{
    let lo = long_selector(c, is_key_odd(c));
    let s1 = product_of(lo.copy(), sel1(c));
    let s2 = product_of(lo, sel2(c));
    let (mut res, sel1_rlc) = build_nibble_constraints(
        "long odd sel1 nibble correspond to byte",
        &s1,
        c,
        long_odd_sel1_start(c),
        r_table,
    );
    res.push(
        Constraint {
            name: "long odd sel1 extension",
            poly: gated(s1.copy(), key_rlc_cur(c), sel1_rlc),
        },
    );
    res.push(
        Constraint {
            name: "long odd sel1 branch",
            poly: gated(
                s1.copy(),
                difference(key_rlc_branch(c), key_rlc_cur(c)),
                product_of(product_of(modified_node_cur(c), key_rlc_mult_prev_level(c)), mult_diff_branch(c)),
            ),
        },
    );
    res.push(
        Constraint {
            name: "long odd sel1 branch mult",
            poly: gated(
                s1,
                key_rlc_mult_branch(c),
                product_of(product_of(key_rlc_mult_prev_level(c), mult_diff_branch(c)), r_table[0].copy()),
            ),
        },
    );
    // skip the first byte cell: its nibble is added above
    let rlc = compute_rlc(columns_from(&c.s_advices, 1), 0, key_rlc_mult_prev_level(c), -1, r_table);
    let sel2_rlc = sum_of(
        sum_of(
            key_rlc_prev_level(c),
            product_of(difference(s_advice_prev(c, 0), c16()), key_rlc_mult_prev_level(c)),
        ),
        rlc,
    );
    res.push(
        Constraint {
            name: "long odd sel2 extension",
            poly: gated(s2.copy(), key_rlc_cur(c), sel2_rlc),
        },
    );
    res.push(
        Constraint {
            name: "long odd sel2 branch",
            poly: gated(
                s2.copy(),
                difference(key_rlc_branch(c), key_rlc_cur(c)),
                product_of(
                    product_of(product_of(c16(), modified_node_cur(c)), key_rlc_mult_prev_level(c)),
                    mult_diff_branch(c),
                ),
            ),
        },
    );
    res.push(
        Constraint {
            name: "long odd sel2 branch mult",
            poly: gated(s2, key_rlc_mult_branch(c), product_of(key_rlc_mult_prev_level(c), mult_diff_branch(c))),
        },
    );
    assert(res@ =~= long_odd_constraints(*c, r_table@));
    res
}

fn build_short_constraints(c: &ExtensionNodeKeyColumns, r_table: &Vec<Expr>) -> (res: Vec<Constraint>)
    requires
        r_table.len() >= 1,
    ensures
        res@ == short_constraints(*c, r_table@),
{
    let sh = short_selector(c);
    let s1 = product_of(sh.copy(), sel1(c));
    let s2 = product_of(sh, sel2(c));
    let mut res: Vec<Constraint> = Vec::new();
    res.push(
        Constraint { name: "short sel1 extension", poly: gated(s1.copy(), key_rlc_cur(c), short_sel1_rlc(c)) },
    );
    res.push(
        Constraint {
            name: "short sel1 branch",
            poly: gated(
                s1.copy(),
                difference(key_rlc_branch(c), key_rlc_cur(c)),
                product_of(
                    product_of(product_of(c16(), modified_node_cur(c)), key_rlc_mult_prev_level(c)),
                    r_table[0].copy(),
                ),
            ),
        },
    );
    res.push(
        Constraint {
            name: "short sel1 branch mult",
            poly: gated(s1, key_rlc_mult_branch(c), product_of(key_rlc_mult_prev_level(c), r_table[0].copy())),
        },
    );
    res.push(
        Constraint { name: "short sel2 extension", poly: gated(s2.copy(), key_rlc_cur(c), short_sel2_rlc(c)) },
    );
    res.push(
        Constraint {
            name: "short sel2 branch",
            poly: gated(
                s2.copy(),
                difference(key_rlc_branch(c), key_rlc_cur(c)),
                product_of(modified_node_cur(c), key_rlc_mult_prev_level(c)),
            ),
        },
    );
    res.push(
        Constraint {
            name: "short sel2 branch mult",
            poly: gated(s2, key_rlc_mult_branch(c), product_of(key_rlc_mult_prev_level(c), r_table[0].copy())),
        },
    );
    assert(res@ =~= short_constraints(*c, r_table@));
    res
}

/// All polynomials of the chip's gate, in order.
fn build_gate_constraints(c: &ExtensionNodeKeyColumns, r_table: &Vec<Expr>) -> (res: Vec<Constraint>)
    requires
        r_table.len() >= HASH_WIDTH - 1,
    ensures
        res@ == gate_constraints(*c, r_table@),
{
    let mut res = build_branch_children_constraints(c);
    let mut part = build_not_extension_constraints(c);
    res.append(&mut part);
    let mut part = build_first_level_constraints(c, r_table);
    res.append(&mut part);
    let mut part = build_long_even_constraints(c, r_table);
    res.append(&mut part);
    let mut part = build_long_odd_constraints(c, r_table);
    res.append(&mut part);
    let mut part = build_short_constraints(c, r_table);
    res.append(&mut part);
    res
}

/// The long-key selector of the lookups for even keys.
fn get_long_even(c: &ExtensionNodeKeyColumns) -> (r: Expr)
    ensures
        r == lookup_long_selector(c, is_key_even(c)),
{
    lookup_long_selector(c, is_key_even(c))
}

/// The long-key selector of the lookups for odd keys.
fn get_long_odd(c: &ExtensionNodeKeyColumns) -> (r: Expr)
    ensures
        r == lookup_long_selector(c, is_key_odd(c)),
{
    lookup_long_selector(c, is_key_odd(c))
}

fn build_mult_diff_lookup(c: &ExtensionNodeKeyColumns) -> (res: Vec<(Expr, Expr)>)
    ensures
        res@ == mult_diff_lookup(*c),
{
    let long_even = get_long_even(c);
    let long_odd = get_long_odd(c);
    let long_even_sel1 = product_of(long_even.copy(), sel1(c));
    let long_even_sel2 = product_of(long_even, sel2(c));
    let long_odd_sel1 = product_of(long_odd.copy(), sel1(c));
    let long_odd_sel2 = product_of(long_odd, sel2(c));
    let sum = sum_of(sum_of(sum_of(long_even_sel1, long_even_sel2), long_odd_sel1), long_odd_sel2);
    // one less than the RLP length: a long key has 0 in its first byte cell
    let key_len = difference(difference(s_rlp2_prev(c), c128()), one());
    let mut res: Vec<(Expr, Expr)> = Vec::new();
    res.push((Expr::Constant(FixedTableTag::RMult.value()), Expr::Fixed(c.fixed_table[0], 0)));
    res.push((product_of(sum.copy(), key_len), Expr::Fixed(c.fixed_table[1], 0)));
    res.push((product_of(sum, mult_diff_branch(c)), Expr::Fixed(c.fixed_table[2], 0)));
    assert(res@ =~= mult_diff_lookup(*c));
    res
}

fn build_nibble_lookup(c: &ExtensionNodeKeyColumns, nibble: Expr) -> (res: Vec<(Expr, Expr)>)
    ensures
        res@ == seq![
            (Expr::Constant(FixedTableTag::Range16.value()), Expr::Fixed(c.fixed_table[0], 0i32)),
            (product_of(nibble_lookup_selector(*c), nibble), Expr::Fixed(c.fixed_table[1], 0i32)),
        ],
{
    let long_even_sel2 = product_of(get_long_even(c), sel2(c));
    let long_odd_sel1 = product_of(get_long_odd(c), sel1(c));
    let mut res: Vec<(Expr, Expr)> = Vec::new();
    res.push((Expr::Constant(FixedTableTag::Range16.value()), Expr::Fixed(c.fixed_table[0], 0)));
    res.push((product_of(sum_of(long_even_sel2, long_odd_sel1), nibble), Expr::Fixed(c.fixed_table[1], 0)));
    res
}

/// All lookups, in order.
fn build_lookups(c: &ExtensionNodeKeyColumns) -> (res: Vec<Vec<(Expr, Expr)>>)
    ensures
        res@.map_values(|l: Vec<(Expr, Expr)>| l@) == lookups(*c),
{
    let mut res: Vec<Vec<(Expr, Expr)>> = Vec::new();
    res.push(build_mult_diff_lookup(c));
    // the second nibbles lie in 0..16
    let mut ind: usize = 0;
    while ind < HASH_WIDTH - 1
        invariant
            ind <= HASH_WIDTH - 1,
            res@.map_values(|l: Vec<(Expr, Expr)>| l@) == seq![mult_diff_lookup(*c)] + Seq::new(
                ind as nat,
                |i: int| second_nibble_lookup(*c, i),
            ),
        decreases HASH_WIDTH - 1 - ind,
    {
        let ghost before = res@;
        let l = build_nibble_lookup(c, s_advice_cur(c, ind));
        assert(l@ == second_nibble_lookup(*c, ind as int));
        res.push(l);
        assert(res@.map_values(|l: Vec<(Expr, Expr)>| l@) =~= before.map_values(
            |l: Vec<(Expr, Expr)>| l@,
        ).push(second_nibble_lookup(*c, ind as int)));
        assert(res@.map_values(|l: Vec<(Expr, Expr)>| l@) =~= seq![mult_diff_lookup(*c)] + Seq::new(
            (ind + 1) as nat,
            |i: int| second_nibble_lookup(*c, i),
        ));
        ind = ind + 1;
    }
    // the first nibbles lie in 0..16
    let mut ind: usize = 0;
    while ind < HASH_WIDTH - 1
        invariant
            ind <= HASH_WIDTH - 1,
            res@.map_values(|l: Vec<(Expr, Expr)>| l@) == seq![mult_diff_lookup(*c)] + Seq::new(
                key_bytes(),
                |i: int| second_nibble_lookup(*c, i),
            ) + Seq::new(ind as nat, |i: int| first_nibble_lookup(*c, i)),
        decreases HASH_WIDTH - 1 - ind,
    {
        let ghost before = res@;
        let l = build_nibble_lookup(c, first_nibble(c, ind));
        assert(l@ == first_nibble_lookup(*c, ind as int));
        res.push(l);
        assert(res@.map_values(|l: Vec<(Expr, Expr)>| l@) =~= before.map_values(
            |l: Vec<(Expr, Expr)>| l@,
        ).push(first_nibble_lookup(*c, ind as int)));
        assert(res@.map_values(|l: Vec<(Expr, Expr)>| l@) =~= seq![mult_diff_lookup(*c)] + Seq::new(
            key_bytes(),
            |i: int| second_nibble_lookup(*c, i),
        ) + Seq::new((ind + 1) as nat, |i: int| first_nibble_lookup(*c, i)));
        ind = ind + 1;
    }
    res
}

impl<F> ExtensionNodeKeyChip<F> {
    /// The configuration that the chip was made with.
    pub closed spec fn chip_config(&self) -> ExtensionNodeKeyConfig {
        self.config
    }

    /// The chip's gate and lookups, over the given columns and the
    /// powers `r_table` of the randomness (`r_table[i]` standing for `r^(i+1)`).
    pub fn configure(
        q_not_first: usize,
        not_first_level: usize,
        is_branch_init: usize,
        is_branch_child: usize,
        is_last_branch_child: usize,
        is_account_leaf_storage_codehash_c: usize,
        s_rlp2: usize,
        s_advices: [usize; HASH_WIDTH],
        modified_node: usize,
        sel1: usize,
        sel2: usize,
        key_rlc: usize,
        key_rlc_mult: usize,
        mult_diff: usize,
        fixed_table: [usize; 3],
        r_table: Vec<Expr>,
    ) -> (res: ExtensionNodeKeyConstraints)
        requires
            r_table.len() >= HASH_WIDTH - 1,
        ensures
            ({
                let c = ExtensionNodeKeyColumns {
                    q_not_first,
                    not_first_level,
                    is_branch_init,
                    is_branch_child,
                    is_last_branch_child,
                    is_account_leaf_storage_codehash_c,
                    s_rlp2,
                    s_advices,
                    modified_node,
                    sel1,
                    sel2,
                    key_rlc,
                    key_rlc_mult,
                    mult_diff,
                    fixed_table,
                };
                &&& res.config == ExtensionNodeKeyConfig {}
                &&& res.gate_name == "extension node key"
                &&& res.gate@ == gate_constraints(c, r_table@)
                &&& res.lookups@.map_values(|l: Vec<(Expr, Expr)>| l@) == lookups(c)
            }),
    {
        let c = ExtensionNodeKeyColumns {
            q_not_first,
            not_first_level,
            is_branch_init,
            is_branch_child,
            is_last_branch_child,
            is_account_leaf_storage_codehash_c,
            s_rlp2,
            s_advices,
            modified_node,
            sel1,
            sel2,
            key_rlc,
            key_rlc_mult,
            mult_diff,
            fixed_table,
        };
        let gate = build_gate_constraints(&c, &r_table);
        let lookups = build_lookups(&c);
        ExtensionNodeKeyConstraints {
            config: ExtensionNodeKeyConfig {},
            gate_name: "extension node key",
            gate,
            lookups,
        }
    }

    /// A chip with the given configuration.
    pub fn construct(config: ExtensionNodeKeyConfig) -> (chip: Self)
        ensures
            chip.chip_config() == config,
    {
        Self { config, _marker: PhantomData }
    }

    /// The configuration of the chip.
    pub fn config(&self) -> (config: &ExtensionNodeKeyConfig)
        ensures
            *config == self.chip_config(),
    {
        &self.config
    }

    /// The state the chip loads: none.
    pub fn loaded(&self) -> (loaded: &())
        ensures
            *loaded == (),
    {
        &()
    }
}

} // verus!
