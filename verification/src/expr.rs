//! Polynomial expressions over the cells of a constraint table, and their
//! meaning in the prime field of a proof system.
use vstd::prelude::*;
use vstd::arithmetic::div_mod::*;

verus! {

/// A polynomial over table cells.
///
/// A cell is named by its column and by a rotation relative to the row at
/// which the polynomial is evaluated.
#[derive(Debug, PartialEq, Eq)]
pub enum Expr {
    /// The field element given by an integer.
    Constant(u64),
    /// The multiplicative inverse in the field of the element given by an integer.
    Inverse(u64),
    /// The cell of an advice column, at a rotation.
    Advice(usize, i32),
    /// The cell of a fixed column, at a rotation.
    Fixed(usize, i32),
    /// The `i`-th polynomial handed in by the caller, such as a power of the
    /// randomness of the proof system, which the model does not look into.
    Input(usize),
    /// The additive inverse of a polynomial.
    Negated(Box<Expr>),
    /// The sum of two polynomials.
    Sum(Box<Expr>, Box<Expr>),
    /// The product of two polynomials.
    Product(Box<Expr>, Box<Expr>),
}

/// The values that a table assigns to its cells: `advice(column, rotation)` and
/// `fixed(column, rotation)`, and the values `input(i)` of the polynomials
/// handed in, read as integers and taken modulo the field's order.
pub struct Cells {
    pub advice: spec_fn(int, int) -> int,
    pub fixed: spec_fn(int, int) -> int,
    pub input: spec_fn(int) -> int,
}

/// The inverse of `n` modulo `p`, where one exists (else zero).
pub open spec fn inverse_mod(n: int, p: int) -> int {
    if exists|x: int| 0 <= x < p && #[trigger] ((x * n) % p) == 1 {
        choose|x: int| 0 <= x < p && #[trigger] ((x * n) % p) == 1
    } else {
        0
    }
}

/// The value of a polynomial in the field of integers modulo `p`, for the
/// given cell values.
pub open spec fn eval(e: Expr, p: int, w: Cells) -> int
    decreases e,
{
    match e {
        Expr::Constant(n) => n as int % p,
        Expr::Inverse(n) => inverse_mod(n as int, p),
        Expr::Advice(c, r) => (w.advice)(c as int, r as int) % p,
        Expr::Fixed(c, r) => (w.fixed)(c as int, r as int) % p,
        Expr::Input(i) => (w.input)(i as int) % p,
        Expr::Negated(a) => (-eval(*a, p, w)) % p,
        Expr::Sum(a, b) => (eval(*a, p, w) + eval(*b, p, w)) % p,
        Expr::Product(a, b) => (eval(*a, p, w) * eval(*b, p, w)) % p,
    }
}

/// The sum of two polynomials.
#[verifier::allow_in_spec]
pub fn sum_of(a: Expr, b: Expr) -> Expr
    returns
        Expr::Sum(Box::new(a), Box::new(b)),
{
    Expr::Sum(Box::new(a), Box::new(b))
}

/// The difference of two polynomials, written as a sum with a negation.
#[verifier::allow_in_spec]
pub fn difference(a: Expr, b: Expr) -> Expr
    returns
        Expr::Sum(Box::new(a), Box::new(Expr::Negated(Box::new(b)))),
{
    Expr::Sum(Box::new(a), Box::new(Expr::Negated(Box::new(b))))
}

/// The product of two polynomials.
#[verifier::allow_in_spec]
pub fn product_of(a: Expr, b: Expr) -> Expr
    returns
        Expr::Product(Box::new(a), Box::new(b)),
{
    Expr::Product(Box::new(a), Box::new(b))
}

impl Expr {
    /// A copy of this polynomial.
    pub fn copy(&self) -> (r: Expr)
        ensures
            r == *self,
        decreases self,
    {
        match self {
            Expr::Constant(n) => Expr::Constant(*n),
            Expr::Inverse(n) => Expr::Inverse(*n),
            Expr::Advice(c, r) => Expr::Advice(*c, *r),
            Expr::Fixed(c, r) => Expr::Fixed(*c, *r),
            Expr::Input(i) => Expr::Input(*i),
            Expr::Negated(a) => Expr::Negated(Box::new((**a).copy())),
            Expr::Sum(a, b) => Expr::Sum(Box::new((**a).copy()), Box::new((**b).copy())),
            Expr::Product(a, b) => Expr::Product(Box::new((**a).copy()), Box::new((**b).copy())),
        }
    }
}

/// Every value of a polynomial lies in `[0, p)`.
pub proof fn lemma_eval_range(e: Expr, p: int, w: Cells)
    requires
        p > 0,
    ensures
        0 <= eval(e, p, w) < p,
    decreases e,
{
    match e {
        Expr::Inverse(n) => {
            if exists|x: int| 0 <= x < p && #[trigger] ((x * (n as int)) % p) == 1 {
            }
        },
        Expr::Negated(a) => {
            lemma_eval_range(*a, p, w);
        },
        Expr::Sum(a, b) => {
            lemma_eval_range(*a, p, w);
            lemma_eval_range(*b, p, w);
        },
        Expr::Product(a, b) => {
            lemma_eval_range(*a, p, w);
            lemma_eval_range(*b, p, w);
        },
        _ => {},
    }
}

/// Sixteen has an inverse modulo every odd `p > 1`, and `Inverse(16)` evaluates to it.
pub proof fn lemma_inverse_of_sixteen(p: int, w: Cells)
    requires
        p > 1,
        p % 2 == 1,
    ensures
        0 <= eval(Expr::Inverse(16), p, w) < p,
        (eval(Expr::Inverse(16), p, w) * 16) % p == 1,
{
    let h = (p + 1) / 2;
    let q = (p + 1) * (p + 1);
    let h4 = (h * h) * (h * h);
    assert(h4 * 16 == q * q) by (nonlinear_arith)
        requires
            2 * h == p + 1,
            q == (p + 1) * (p + 1),
            h4 == (h * h) * (h * h),
    ;
    assert((p + 1) % p == 1) by {
        lemma_mod_add_multiples_vanish(1, p);
        lemma_small_mod(1nat, p as nat);
    }
    assert(q % p == 1) by {
        lemma_mul_mod_noop(p + 1, p + 1, p);
        lemma_small_mod(1nat, p as nat);
    }
    assert((q * q) % p == 1) by {
        lemma_mul_mod_noop(q, q, p);
        lemma_small_mod(1nat, p as nat);
    }
    let x = h4 % p;
    assert((x * 16) % p == 1) by {
        lemma_mul_mod_noop_left(h4, 16, p);
    }
    assert(0 <= x < p) by {
        lemma_mod_bound(h4, p);
    }
    assert((x * (16 as int)) % p == 1);
}

/// The value of a polynomial over the integers, for the given cell values,
/// with `Inverse(n)` read as the inverse of `n` modulo `p`.
pub open spec fn value(e: Expr, p: int, w: Cells) -> int
    decreases e,
{
    match e {
        Expr::Constant(n) => n as int,
        Expr::Inverse(n) => inverse_mod(n as int, p),
        Expr::Advice(c, r) => (w.advice)(c as int, r as int),
        Expr::Fixed(c, r) => (w.fixed)(c as int, r as int),
        Expr::Input(i) => (w.input)(i as int),
        Expr::Negated(a) => -value(*a, p, w),
        Expr::Sum(a, b) => value(*a, p, w) + value(*b, p, w),
        Expr::Product(a, b) => value(*a, p, w) * value(*b, p, w),
    }
}

/// The field value of a polynomial is its integer value reduced modulo `p`.
pub proof fn lemma_eval_is_value(e: Expr, p: int, w: Cells)
    requires
        p > 0,
    ensures
        eval(e, p, w) == value(e, p, w) % p,
    decreases e,
{
    match e {
        Expr::Inverse(n) => {
            lemma_eval_range(e, p, w);
            lemma_small_mod(eval(e, p, w) as nat, p as nat);
        },
        Expr::Negated(a) => {
            lemma_eval_is_value(*a, p, w);
            lemma_sub_mod_noop(0, value(*a, p, w), p);
            lemma_small_mod(0nat, p as nat);
        },
        Expr::Sum(a, b) => {
            lemma_eval_is_value(*a, p, w);
            lemma_eval_is_value(*b, p, w);
            lemma_add_mod_noop(value(*a, p, w), value(*b, p, w), p);
        },
        Expr::Product(a, b) => {
            lemma_eval_is_value(*a, p, w);
            lemma_eval_is_value(*b, p, w);
            lemma_mul_mod_noop(value(*a, p, w), value(*b, p, w), p);
        },
        _ => {},
    }
}

/// A product of two polynomials whose values are one has the value one.
pub proof fn lemma_eval_product_of_ones(a: Expr, b: Expr, p: int, w: Cells)
    requires
        p > 1,
        eval(a, p, w) == 1,
        eval(b, p, w) == 1,
    ensures
        eval(product_of(a, b), p, w) == 1,
{
    lemma_small_mod(1nat, p as nat);
}

/// A product whose first factor has the value one has the value of the second factor.
pub proof fn lemma_eval_product_with_one(a: Expr, b: Expr, p: int, w: Cells)
    requires
        p > 0,
        eval(a, p, w) == 1,
    ensures
        eval(product_of(a, b), p, w) == eval(b, p, w),
{
    lemma_eval_range(b, p, w);
    lemma_small_mod(eval(b, p, w) as nat, p as nat);
}

/// A sum with a term of value zero has the value of the other term.
pub proof fn lemma_eval_sum_with_zero(a: Expr, b: Expr, p: int, w: Cells)
    requires
        p > 0,
        eval(a, p, w) == 0 || eval(b, p, w) == 0,
    ensures
        eval(a, p, w) == 0 ==> eval(sum_of(a, b), p, w) == eval(b, p, w),
        eval(b, p, w) == 0 ==> eval(sum_of(a, b), p, w) == eval(a, p, w),
{
    lemma_eval_range(a, p, w);
    lemma_eval_range(b, p, w);
    lemma_small_mod(eval(a, p, w) as nat, p as nat);
    lemma_small_mod(eval(b, p, w) as nat, p as nat);
}

/// A product with a factor of value zero has the value zero.
pub proof fn lemma_eval_product_with_zero(a: Expr, b: Expr, p: int, w: Cells)
    requires
        p > 0,
        eval(a, p, w) == 0 || eval(b, p, w) == 0,
    ensures
        eval(product_of(a, b), p, w) == 0,
{
    lemma_small_mod(0nat, p as nat);
}

/// The field value of a difference is the difference of the values, reduced.
pub proof fn lemma_eval_difference(a: Expr, b: Expr, p: int, w: Cells)
    requires
        p > 0,
    ensures
        eval(difference(a, b), p, w) == (eval(a, p, w) - eval(b, p, w)) % p,
{
    let ea = eval(a, p, w);
    let eb = eval(b, p, w);
    lemma_eval_range(a, p, w);
    lemma_small_mod(ea as nat, p as nat);
    assert(eval(Expr::Negated(Box::new(b)), p, w) == (-eb) % p);
    lemma_add_mod_noop(ea, -eb, p);
}

/// `1 - x` has the value one where `x` has the value zero, and zero where `x` has the value one.
pub proof fn lemma_eval_one_minus(x: Expr, p: int, w: Cells)
    requires
        p > 1,
        eval(x, p, w) == 0 || eval(x, p, w) == 1,
    ensures
        eval(x, p, w) == 0 ==> eval(difference(Expr::Constant(1), x), p, w) == 1,
        eval(x, p, w) == 1 ==> eval(difference(Expr::Constant(1), x), p, w) == 0,
{
    lemma_small_mod(0nat, p as nat);
    lemma_small_mod(1nat, p as nat);
    lemma_eval_difference(Expr::Constant(1), x, p, w);
}

/// Two field values in `[0, p)` whose difference is zero modulo `p` are equal.
pub proof fn lemma_equal_if_difference_zero(x: int, y: int, p: int)
    requires
        p > 0,
        0 <= x < p,
        0 <= y < p,
        (x - y) % p == 0,
    ensures
        x == y,
{
    let d = x - y;
    if d >= 0 {
        lemma_small_mod(d as nat, p as nat);
    } else {
        lemma_mod_add_multiples_vanish(d, p);
        lemma_small_mod((p + d) as nat, p as nat);
    }
}

} // verus!
