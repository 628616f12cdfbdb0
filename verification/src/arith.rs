//! Integer operations that saturate.
use vstd::prelude::*;

verus! {

/// The product, or the largest `usize` if it does not fit.
pub open spec fn sat_mul(a: int, b: int) -> int {
    if a * b <= usize::MAX {
        a * b
    } else {
        usize::MAX as int
    }
}

/// The sum, or the largest `usize` if it does not fit.
pub open spec fn sat_add(a: int, b: int) -> int {
    if a + b <= usize::MAX {
        a + b
    } else {
        usize::MAX as int
    }
}

/// The difference, or zero if it would be negative.
pub open spec fn sat_sub(a: int, b: int) -> int {
    if a >= b {
        a - b
    } else {
        0
    }
}

pub fn saturating_product(a: usize, b: usize) -> (product: usize)
    ensures
        product == sat_mul(a as int, b as int),
{
    match a.checked_mul(b) {
        Some(product) => product,
        None => usize::MAX,
    }
}

pub fn saturating_total(a: usize, b: usize) -> (sum: usize)
    ensures
        sum == sat_add(a as int, b as int),
{
    match a.checked_add(b) {
        Some(sum) => sum,
        None => usize::MAX,
    }
}

pub fn saturating_rest(a: usize, b: usize) -> (rest: usize)
    ensures
        rest == sat_sub(a as int, b as int),
{
    if a >= b {
        a - b
    } else {
        0
    }
}

/// `a / b` rounded up.
pub open spec fn ceil_div(a: int, b: int) -> int {
    (a + b - 1) / b
}

pub fn quotient_up(a: usize, b: usize) -> (quotient: usize)
    requires
        b > 0,
    ensures
        quotient == ceil_div(a as int, b as int),
        quotient <= a,
        a <= quotient * b,
        a > 0 ==> quotient > 0,
{
    let whole: usize = a / b;
    let rest: usize = a % b;
    proof {
        let q = a as int / b as int;
        let r = a as int % b as int;
        vstd::arithmetic::div_mod::lemma_fundamental_div_mod(a as int, b as int);
        assert(ceil_div(a as int, b as int) == (if r == 0 {
            q
        } else {
            q + 1
        })) by (nonlinear_arith)
            requires
                a as int == b as int * q + r,
                0 <= r < b as int,
                b > 0,
                ceil_div(a as int, b as int) == (a as int + b as int - 1) / (b as int),
        ;
        assert(q + (if r == 0 { 0int } else { 1int }) <= a) by (nonlinear_arith)
            requires
                a as int == b as int * q + r,
                0 <= r < b as int,
                b > 0,
                q >= 0,
        ;
        assert(a > 0 && r == 0 ==> q > 0) by (nonlinear_arith)
            requires
                a as int == b as int * q + r,
                b > 0,
                q >= 0,
        ;
        assert(a as int <= (if r == 0 { q } else { q + 1 }) * b as int) by (nonlinear_arith)
            requires
                a as int == b as int * q + r,
                0 <= r < b as int,
                b > 0,
        ;
    }
    if rest == 0 {
        whole
    } else {
        whole + 1
    }
}

pub fn smaller(a: usize, b: usize) -> (least: usize)
    ensures
        least == (if a <= b { a } else { b }),
{
    if a <= b {
        a
    } else {
        b
    }
}

pub fn larger(a: usize, b: usize) -> (most: usize)
    ensures
        most == (if a >= b { a } else { b }),
{
    if a >= b {
        a
    } else {
        b
    }
}

} // verus!
