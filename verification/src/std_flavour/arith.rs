//! Ceiling division on machine integers.

use vstd::arithmetic::div_mod::{
    lemma_div_pos_is_pos, lemma_fundamental_div_mod, lemma_fundamental_div_mod_converse_div,
    lemma_mod_pos_bound,
};
use vstd::prelude::*;

verus! {

/// The quotient `a / b` rounded up, for a positive divisor.
pub open spec fn ceil_div(a: nat, b: nat) -> nat
    recommends
        b > 0,
{
    ((a + b - 1) / (b as int)) as nat
}

/// Integer division rounded up.
///
/// The divisor must be positive. The result is computed without forming
/// `a + b - 1`, so it is exact over the whole range of `usize`.
pub fn div_ceil(a: usize, b: usize) -> (q: usize)
    requires
        b > 0,
    ensures
        q == ceil_div(a as nat, b as nat),
{
    let whole: usize = a / b;
    let rest: usize = a % b;
    proof {
        lemma_ceil_div_split(a as nat, b as nat);
    }
    if rest == 0 {
        whole
    } else {
        whole + 1
    }
}

/// `ceil_div` is the quotient, plus one where the division leaves a remainder;
/// it never exceeds the dividend and is positive for a positive dividend.
pub proof fn lemma_ceil_div_split(a: nat, b: nat)
    requires
        b > 0,
    ensures
        a % b == 0 ==> ceil_div(a, b) == a / b,
        a % b != 0 ==> ceil_div(a, b) == a / b + 1,
        ceil_div(a, b) <= a,
        a > 0 ==> ceil_div(a, b) >= 1,
{
    let d = b as int;
    let q = a as int / d;
    let r = a as int % d;
    lemma_fundamental_div_mod(a as int, d);
    lemma_mod_pos_bound(a as int, d);
    lemma_div_pos_is_pos(a as int, d);
    assert(d * q == q * d) by (nonlinear_arith);
    assert((q + 1) * d == q * d + d) by (nonlinear_arith);
    assert(q <= q * d) by (nonlinear_arith)
        requires
            0 <= q,
            1 <= d,
    ;
    if r == 0 {
        lemma_fundamental_div_mod_converse_div(a + d - 1, d, q, d - 1);
        assert(q > 0 || a == 0) by (nonlinear_arith)
            requires
                a == q * d,
                0 <= q,
        ;
    } else {
        lemma_fundamental_div_mod_converse_div(a + d - 1, d, q + 1, r - 1);
    }
}

/// `ceil_div(a, b)` is the least number of blocks of `b` that cover `a`.
pub proof fn lemma_ceil_div_covers(a: nat, b: nat)
    requires
        b > 0,
    ensures
        a <= ceil_div(a, b) * b,
        a > 0 ==> (ceil_div(a, b) - 1) * b < a,
{
    let d = b as int;
    let q = a as int / d;
    let r = a as int % d;
    lemma_ceil_div_split(a, b);
    lemma_fundamental_div_mod(a as int, d);
    lemma_mod_pos_bound(a as int, d);
    assert(d * q == q * d) by (nonlinear_arith);
    assert((q + 1) * d == q * d + d) by (nonlinear_arith);
    assert((q - 1) * d == q * d - d) by (nonlinear_arith);
}

/// A number of blocks of `b` that covers `a` and leaves no block empty is `ceil_div(a, b)`.
pub proof fn lemma_ceil_div_unique(a: nat, b: nat, q: nat)
    requires
        b > 0,
        a > 0,
        a <= q * b,
        (q - 1) * b < a,
    ensures
        q == ceil_div(a, b),
{
    lemma_ceil_div_covers(a, b);
    let c = ceil_div(a, b);
    if q < c {
        assert(q * b <= (c - 1) * b) by (nonlinear_arith)
            requires
                q <= c - 1,
                b > 0,
        ;
    }
    if c < q {
        assert(c * b <= (q - 1) * b) by (nonlinear_arith)
            requires
                c <= q - 1,
                b > 0,
        ;
    }
}

} // verus!
