//! Integer arithmetic as the machine does it, stated over the integers.

use vstd::arithmetic::div_mod::lemma_fundamental_div_mod;
use vstd::prelude::*;

verus! {

/// The quotient of `a` by `b`, rounded towards zero.
pub open spec fn quotient(a: int, b: int) -> int {
    if a >= 0 {
        a / b
    } else {
        -((-a) / b)
    }
}

/// A quotient is no larger in size than what is divided, and smaller if the
/// divisor is neither 1 nor -1.
pub proof fn lemma_quotient_bounds(x: int, b: int)
    requires
        x >= 0,
        b != 0,
    ensures
        -x <= x / b <= x,
        b != 1 && b != -1 && x > 0 ==> -x < x / b < x,
{
    let q = x / b;
    let r = x % b;
    lemma_fundamental_div_mod(x, b);
    if b > 0 {
        assert(0 <= q <= x && (b != 1 && x > 0 ==> q < x)) by (nonlinear_arith)
            requires
                x == b * q + r,
                0 <= r < b,
                x >= 0,
        ;
    } else {
        assert(-x <= q <= 0 && (b != -1 && x > 0 ==> -x < q)) by (nonlinear_arith)
            requires
                x == b * q + r,
                0 <= r < -b,
                x >= 0,
                b < 0,
        ;
    }
}

/// The quotient of `a` by `b`, rounded towards zero.
pub fn divide(a: i32, b: i32) -> (q: i32)
    requires
        b != 0,
        !(a == i32::MIN && b == -1),
    ensures
        q == quotient(a as int, b as int),
{
    proof {
        if a >= 0 {
            lemma_quotient_bounds(a as int, b as int);
        } else {
            lemma_quotient_bounds(-(a as int), b as int);
        }
    }
    a / b
}

} // verus!
