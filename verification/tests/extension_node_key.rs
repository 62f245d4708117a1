use mpt::expr::Expr;
use mpt::extension_node_key::{
    Constraint, ExtensionNodeKeyChip, ExtensionNodeKeyConfig, ExtensionNodeKeyConstraints,
};
use mpt::helpers::compute_rlc;
use mpt::param::{FixedTableTag, HASH_WIDTH};

// Column layout used by the tests. Fixed: q_not_first 0, not_first_level 1,
// lookup table 2, 3, 4, powers of the randomness 100.. . Advice: is_branch_init 0,
// is_branch_child 1, is_last_branch_child 2, is_account_leaf_storage_codehash_c 3,
// s_rlp2 4, modified_node 5, sel1 6, sel2 7, key_rlc 8, key_rlc_mult 9,
// s_advices 10..42, mult_diff 50.
const KEY_RLC: usize = 8;
const KEY_RLC_MULT: usize = 9;
const S_ADVICES: usize = 10;

fn adv(c: usize, r: i32) -> Expr {
    Expr::Advice(c, r)
}

fn fix(c: usize, r: i32) -> Expr {
    Expr::Fixed(c, r)
}

fn konst(n: u64) -> Expr {
    Expr::Constant(n)
}

fn sum(a: Expr, b: Expr) -> Expr {
    Expr::Sum(Box::new(a), Box::new(b))
}

fn diff(a: Expr, b: Expr) -> Expr {
    Expr::Sum(Box::new(a), Box::new(Expr::Negated(Box::new(b))))
}

fn prod(a: Expr, b: Expr) -> Expr {
    Expr::Product(Box::new(a), Box::new(b))
}

fn r_table() -> Vec<Expr> {
    (0..HASH_WIDTH - 1).map(|i| fix(100 + i, 0)).collect()
}

fn s_advices() -> [usize; HASH_WIDTH] {
    let mut s = [0usize; HASH_WIDTH];
    for (i, v) in s.iter_mut().enumerate() {
        *v = S_ADVICES + i;
    }
    s
}

fn configure() -> ExtensionNodeKeyConstraints {
    ExtensionNodeKeyChip::<()>::configure(
        0,
        1,
        0,
        1,
        2,
        3,
        4,
        s_advices(),
        5,
        6,
        7,
        KEY_RLC,
        KEY_RLC_MULT,
        50,
        [2, 3, 4],
        r_table(),
    )
}

fn names(gate: &[Constraint]) -> Vec<&'static str> {
    gate.iter().map(|c| c.name).collect()
}

/// Evaluates a polynomial modulo the prime `p`.
fn eval_mod(
    e: &Expr,
    p: u64,
    advice: &dyn Fn(usize, i32) -> u64,
    fixed: &dyn Fn(usize, i32) -> u64,
) -> u64 {
    match e {
        Expr::Constant(n) => n % p,
        Expr::Inverse(n) => pow_mod(n % p, p - 2, p),
        Expr::Advice(c, r) => advice(*c, *r) % p,
        Expr::Fixed(c, r) => fixed(*c, *r) % p,
        Expr::Input(i) => (*i as u64 + 2) % p,
        Expr::Negated(a) => (p - eval_mod(a, p, advice, fixed)) % p,
        Expr::Sum(a, b) => (eval_mod(a, p, advice, fixed) + eval_mod(b, p, advice, fixed)) % p,
        Expr::Product(a, b) => (eval_mod(a, p, advice, fixed) * eval_mod(b, p, advice, fixed)) % p,
    }
}

fn pow_mod(mut b: u64, mut e: u64, p: u64) -> u64 {
    let mut r = 1 % p;
    while e > 0 {
        if e & 1 == 1 {
            r = r * b % p;
        }
        b = b * b % p;
        e >>= 1;
    }
    r
}

#[test]
fn construct_keeps_config() {
    let chip = ExtensionNodeKeyChip::<u64>::construct(ExtensionNodeKeyConfig {});
    let _config: &ExtensionNodeKeyConfig = chip.config();
    assert_eq!(*chip.loaded(), ());
}

#[test]
fn gate_lists_constraints_in_order() {
    let res = configure();
    assert_eq!(res.gate_name, "extension node key");
    let n = names(&res.gate);
    assert_eq!(n.len(), 95);
    assert_eq!(n[0], "branch key RLC same over all branch children with index > 0");
    assert_eq!(n[2], "branch key MULT diff same over all branch children with index > 0");
    assert_eq!(
        n[6],
        "extension node row C key RLC mult is the same as branch key RLC when NOT extension node"
    );
    assert_eq!(n[7], "account first level long even");
    assert_eq!(n[14], "storage first level short branch mult");
    assert_eq!(n[15], "long even sel1 extension");
    assert_eq!(n[18], "long even sel2 nibble correspond to byte");
    assert_eq!(n[48], "long even sel2 nibble correspond to byte");
    assert_eq!(n[49], "long even sel2 extension");
    assert_eq!(n[52], "long odd sel1 nibble correspond to byte");
    assert_eq!(n[83], "long odd sel1 extension");
    assert_eq!(n[88], "long odd sel2 branch mult");
    assert_eq!(n[89], "short sel1 extension");
    assert_eq!(n[94], "short sel2 branch mult");
    assert_eq!(n.iter().filter(|s| s.contains("nibble correspond")).count(), 62);
}

#[test]
fn branch_children_constraint_is_exact() {
    let res = configure();
    let expected = prod(
        prod(prod(fix(0, 0), adv(1, -1)), adv(1, 0)),
        diff(adv(KEY_RLC, 0), adv(KEY_RLC, -1)),
    );
    assert_eq!(res.gate[0].poly, expected);
}

#[test]
fn short_sel1_extension_constraint_is_exact() {
    let res = configure();
    let not_acc = diff(konst(1), adv(3, -19));
    let is_ext = adv(S_ADVICES + 12, -18);
    let is_short = adv(S_ADVICES + 15, -18);
    let short = prod(prod(prod(prod(fix(1, 0), not_acc), is_ext), adv(2, -2)), is_short);
    let rlc = sum(
        adv(KEY_RLC, -21),
        prod(diff(adv(4, -1), konst(16)), adv(KEY_RLC_MULT, -21)),
    );
    let expected = prod(prod(short, adv(6, -18)), diff(adv(KEY_RLC, 0), rlc));
    assert_eq!(res.gate[89].poly, expected);
}

#[test]
fn nibble_constraint_is_exact() {
    let res = configure();
    let s = adv(S_ADVICES + 1, -1);
    let second = adv(S_ADVICES, 0);
    let first = prod(diff(s.copy(), second.copy()), Expr::Inverse(16));
    let inner = diff(diff(s, prod(first, konst(16))), second);
    match &res.gate[18].poly {
        Expr::Product(_, rest) => assert_eq!(**rest, inner),
        other => panic!("unexpected shape {:?}", other),
    }
}

#[test]
fn lookups_are_listed_in_order() {
    let res = configure();
    assert_eq!(res.lookups.len(), 63);
    let m = &res.lookups[0];
    assert_eq!(m.len(), 3);
    assert_eq!(m[0], (konst(0), fix(2, 0)));
    assert_eq!(m[1].1, fix(3, 0));
    assert_eq!(m[2].1, fix(4, 0));
    for l in &res.lookups[1..] {
        assert_eq!(l.len(), 2);
        assert_eq!(l[0], (konst(1), fix(2, 0)));
        assert_eq!(l[1].1, fix(3, 0));
    }
    // second nibble of the first long-key byte
    match &res.lookups[1][1].0 {
        Expr::Product(_, nibble) => assert_eq!(**nibble, adv(S_ADVICES, 0)),
        other => panic!("unexpected shape {:?}", other),
    }
    // first nibble of the last long-key byte
    match &res.lookups[62][1].0 {
        Expr::Product(_, nibble) => assert_eq!(
            **nibble,
            prod(diff(adv(S_ADVICES + 31, -1), adv(S_ADVICES + 30, 0)), Expr::Inverse(16))
        ),
        other => panic!("unexpected shape {:?}", other),
    }
}

#[test]
fn compute_rlc_weights_each_cell() {
    let r = vec![fix(100, 0), fix(101, 0), fix(102, 0)];
    let rlc = compute_rlc(vec![3, 4], 1, konst(7), -1, &r);
    let expected = sum(
        sum(konst(0), prod(prod(adv(3, -1), fix(101, 0)), konst(7))),
        prod(prod(adv(4, -1), fix(102, 0)), konst(7)),
    );
    assert_eq!(rlc, expected);
    assert_eq!(compute_rlc(vec![], 0, konst(7), -1, &r), konst(0));
}

#[test]
fn compute_rlc_value_is_weighted_sum() {
    let p = 1_000_003u64;
    let r = vec![fix(100, 0), fix(101, 0), fix(102, 0)];
    let rlc = compute_rlc(vec![3, 4, 5], 0, konst(2), 0, &r);
    let advice = |c: usize, _r: i32| c as u64 * 10;
    let fixed = |c: usize, _r: i32| (c - 99) as u64;
    // 2 * (30 * 1 + 40 * 2 + 50 * 3)
    assert_eq!(eval_mod(&rlc, p, &advice, &fixed), 520);
}

#[test]
fn fixed_table_tags() {
    assert_eq!(FixedTableTag::RMult.value(), 0);
    assert_eq!(FixedTableTag::Range16.value(), 1);
}

#[test]
fn copy_is_equal() {
    let e = prod(sum(adv(1, -2), Expr::Inverse(16)), diff(fix(3, 4), konst(5)));
    assert_eq!(e.copy(), e);
}

#[test]
fn nibble_constraints_hold_for_any_cells() {
    let res = configure();
    let p = 101u64;
    let advice = |c: usize, r: i32| (c as u64 * 37 + (r + 40) as u64 * 11) % 997;
    let fixed = |c: usize, r: i32| (c as u64 * 13 + (r + 40) as u64) % 991;
    for c in res.gate.iter().filter(|c| c.name.contains("nibble correspond")) {
        assert_eq!(eval_mod(&c.poly, p, &advice, &fixed), 0);
    }
}

#[test]
fn first_nibble_recovers_high_nibble() {
    let res = configure();
    let p = 257u64;
    // byte 0x95 in row S cell 1, second nibble 5 in row C cell 0
    let advice = |c: usize, r: i32| {
        if c == S_ADVICES + 1 && r == -1 {
            0x95
        } else if c == S_ADVICES && r == 0 {
            5
        } else {
            0
        }
    };
    let fixed = |_c: usize, _r: i32| 0;
    match &res.lookups[32][1].0 {
        Expr::Product(_, first) => assert_eq!(eval_mod(first, p, &advice, &fixed), 9),
        other => panic!("unexpected shape {:?}", other),
    }
}

#[test]
fn branch_children_constraint_forces_equal_key_rlc() {
    let res = configure();
    let p = 101u64;
    let fixed = |_c: usize, _r: i32| 1;
    let same = |c: usize, r: i32| if c == KEY_RLC { 42 } else if c == 1 && (r == 0 || r == -1) { 1 } else { 3 };
    assert_eq!(eval_mod(&res.gate[0].poly, p, &same, &fixed), 0);
    let differ = |c: usize, r: i32| {
        if c == KEY_RLC {
            if r == 0 { 43 } else { 42 }
        } else if c == 1 {
            1
        } else {
            3
        }
    };
    assert_ne!(eval_mod(&res.gate[0].poly, p, &differ, &fixed), 0);
    // off the branch children the constraint holds whatever the key RLC
    let off = |c: usize, r: i32| if c == 1 { 0 } else { differ(c, r) };
    assert_eq!(eval_mod(&res.gate[0].poly, p, &off, &fixed), 0);
}

#[test]
fn short_key_constraint_holds_for_the_key_rlc() {
    let res = configure();
    let p = 1_000_003u64;
    // below the first level, an extension node with a one-byte key 0x13, sel1
    let advice = |c: usize, r: i32| -> u64 {
        match (c, r) {
            (3, -19) => 0,                       // not the storage root
            (c, -18) if c == S_ADVICES + 12 => 1, // extension node
            (c, -18) if c == S_ADVICES + 15 => 1, // short key
            (2, -2) => 1,                        // extension row C
            (6, -18) => 1,                       // sel1
            (4, -1) => 0x13,                     // s_rlp2 of row S
            (KEY_RLC, -21) => 1000,
            (KEY_RLC_MULT, -21) => 7,
            (KEY_RLC, 0) => 1000 + 3 * 7,
            _ => 0,
        }
    };
    let fixed = |c: usize, _r: i32| if c == 1 { 1 } else { 0 };
    assert_eq!(eval_mod(&res.gate[89].poly, p, &advice, &fixed), 0);
    let wrong = |c: usize, r: i32| if (c, r) == (KEY_RLC, 0) { 1000 } else { advice(c, r) };
    assert_ne!(eval_mod(&res.gate[89].poly, p, &wrong, &fixed), 0);
}

#[test]
fn lookups_vanish_off_long_keys() {
    let res = configure();
    let p = 101u64;
    // not a long key: the long flag of the branch init row is zero
    let advice = |c: usize, r: i32| if c == S_ADVICES + 16 && r == -18 { 0 } else { 1 + c as u64 };
    let fixed = |c: usize, _r: i32| c as u64 + 5;
    for l in &res.lookups {
        for (input, _) in &l[1..] {
            assert_eq!(eval_mod(input, p, &advice, &fixed), 0);
        }
    }
}

#[test]
fn inputs_stand_for_the_powers_of_the_randomness() {
    let r: Vec<Expr> = (0..HASH_WIDTH - 1).map(Expr::Input).collect();
    let res = ExtensionNodeKeyChip::<()>::configure(
        0, 1, 0, 1, 2, 3, 4, s_advices(), 5, 6, 7, KEY_RLC, KEY_RLC_MULT, 50, [2, 3, 4], r,
    );
    // account first level short branch mult: selector * (r_table[0] - key_rlc_mult_branch)
    match &res.gate[10].poly {
        Expr::Product(_, d) => assert_eq!(**d, diff(Expr::Input(0), adv(KEY_RLC_MULT, -17))),
        other => panic!("unexpected shape {:?}", other),
    }
}

#[test]
fn not_extension_constraint_repeats_key_rlc() {
    let res = configure();
    let p = 101u64;
    // extension row S of a branch without extension node
    let advice = |c: usize, r: i32| -> u64 {
        match (c, r) {
            (0, -1) => 0,                         // row above is not the branch init row
            (1, -1) => 0,                         // nor a branch child row
            (2, -1) => 1,                         // extension row S
            (c, -18) if c == S_ADVICES + 12 => 0, // no extension node
            (KEY_RLC, 0) | (KEY_RLC, -1) => 77,
            _ => 5,
        }
    };
    let fixed = |_c: usize, _r: i32| 1;
    assert_eq!(res.gate[3].name, "extension node row S key RLC is the same as branch key RLC when NOT extension node");
    assert_eq!(eval_mod(&res.gate[3].poly, p, &advice, &fixed), 0);
    let moved = |c: usize, r: i32| if (c, r) == (KEY_RLC, 0) { 78 } else { advice(c, r) };
    assert_ne!(eval_mod(&res.gate[3].poly, p, &moved, &fixed), 0);
}

#[test]
fn account_first_level_short_key() {
    let res = configure();
    let p = 1_000_003u64;
    // first level of an account proof, extension node with key byte 0x17 (nibble 7)
    let advice = |c: usize, r: i32| -> u64 {
        match (c, r) {
            (0, -1) | (1, -1) => 0,
            (c, -18) if c == S_ADVICES + 12 => 1, // extension node
            (c, -18) if c == S_ADVICES + 15 => 1, // short key
            (2, -2) => 1,                         // extension row C
            (4, -1) => 0x17,
            (5, -2) => 3,                         // modified child
            (KEY_RLC, 0) => 7 * 16,
            (KEY_RLC, -17) => 7 * 16 + 3,
            (KEY_RLC_MULT, -17) => 100,           // equals r_table[0] below
            _ => 0,
        }
    };
    let fixed = |c: usize, _r: i32| match c {
        0 => 1,   // q_not_first
        1 => 0,   // first level
        100 => 100,
        _ => 0,
    };
    for i in 8..11 {
        assert_eq!(eval_mod(&res.gate[i].poly, p, &advice, &fixed), 0, "{}", res.gate[i].name);
    }
    let wrong = |c: usize, r: i32| if (c, r) == (KEY_RLC, -17) { 7 * 16 } else { advice(c, r) };
    assert_ne!(eval_mod(&res.gate[9].poly, p, &wrong, &fixed), 0);
}

#[test]
fn lookups_on_long_even_key_with_sel2() {
    let res = configure();
    let p = 1_000_003u64;
    let advice = |c: usize, r: i32| -> u64 {
        match (c, r) {
            (3, -19) => 0,
            (c, -18) if c == S_ADVICES + 12 => 1, // extension node
            (c, -18) if c == S_ADVICES + 13 => 1, // even
            (c, -18) if c == S_ADVICES + 14 => 0, // not odd
            (c, -18) if c == S_ADVICES + 16 => 1, // long
            (2, -2) => 1,
            (6, -18) => 0,
            (7, -18) => 1,                        // sel2
            (4, -1) => 128 + 5,                   // RLP length of a 4-byte key
            (50, -17) => 999,                     // mult_diff
            (c, 0) if c >= S_ADVICES => (c - S_ADVICES) as u64 % 16,
            _ => 0,
        }
    };
    let fixed = |_c: usize, _r: i32| 0;
    let m = &res.lookups[0];
    assert_eq!(eval_mod(&m[1].0, p, &advice, &fixed), 4);
    assert_eq!(eval_mod(&m[2].0, p, &advice, &fixed), 999);
    for ind in 0..HASH_WIDTH - 1 {
        assert_eq!(eval_mod(&res.lookups[1 + ind][1].0, p, &advice, &fixed), ind as u64 % 16);
    }
}

#[test]
fn long_even_sel2_key_rlc_adds_the_nibbles() {
    let res = configure();
    let p = 1_000_003u64;
    let first = |ind: usize| (ind as u64 * 3) % 16;
    let second = |ind: usize| ind as u64 % 16;
    let mult = 3u64;
    let mut key_rlc = 10u64;
    for ind in 0..HASH_WIDTH - 1 {
        key_rlc += first(ind) * mult + second(ind) * 16 * mult * (ind as u64 + 2);
    }
    let advice = move |c: usize, r: i32| -> u64 {
        match (c, r) {
            (3, -19) => 0,
            (c, -18) if c == S_ADVICES + 12 => 1, // extension node
            (c, -18) if c == S_ADVICES + 13 => 1, // even
            (c, -18) if c == S_ADVICES + 16 => 1, // long
            (2, -2) => 1,
            (7, -18) => 1, // sel2
            (KEY_RLC, -21) => 10,
            (KEY_RLC_MULT, -21) => mult,
            (KEY_RLC, 0) => key_rlc,
            (c, -1) if c > S_ADVICES && c < S_ADVICES + HASH_WIDTH => {
                let ind = c - S_ADVICES - 1;
                16 * first(ind) + second(ind)
            }
            (c, 0) if c >= S_ADVICES && c < S_ADVICES + HASH_WIDTH => second(c - S_ADVICES),
            _ => 0,
        }
    };
    let fixed = |c: usize, _r: i32| match c {
        1 => 1, // below the first level
        c if c >= 100 => (c - 100) as u64 + 2,
        _ => 0,
    };
    assert_eq!(res.gate[49].name, "long even sel2 extension");
    assert_eq!(eval_mod(&res.gate[49].poly, p, &advice, &fixed), 0);
    let off = move |c: usize, r: i32| if (c, r) == (KEY_RLC, 0) { key_rlc + 1 } else { advice(c, r) };
    assert_ne!(eval_mod(&res.gate[49].poly, p, &off, &fixed), 0);
}
