//! Rounded integer division, the one piece of arithmetic shared by tick
//! placement, coordinate mapping and line interpolation.

use vstd::prelude::*;

verus! {

/// The quotient `n / d` rounded to the nearest integer, halves rounded up.
pub open spec fn round_div(n: nat, d: nat) -> nat
    recommends
        d > 0,
{
    (2 * n + d) / (2 * d)
}

/// Computes `round_div(n, d)` without forming `2 * n`.
pub fn rounded_quotient(n: u128, d: u128) -> (q: u128)
    requires
        d > 0,
        d <= u64::MAX,
    ensures
        q == round_div(n as nat, d as nat),
{
    let whole: u128 = n / d;
    let rest: u128 = n % d;
    proof {
        lemma_round_div_split(n as nat, d as nat);
        vstd::arithmetic::div_mod::lemma_fundamental_div_mod(n as int, d as int);
    }
    if 2 * rest >= d {
        assert(whole < u128::MAX) by (nonlinear_arith)
            requires
                n == d * whole + rest,
                rest >= 1,
                d >= 2,
        ;
        whole + 1
    } else {
        whole
    }
}

/// Rounding looks only at whether the remainder reaches half the divisor.
pub proof fn lemma_round_div_split(n: nat, d: nat)
    requires
        d > 0,
    ensures
        round_div(n, d) == n / d + if 2 * (n % d) >= d { 1nat } else { 0nat },
{
    let q = n / d;
    let r = n % d;
    assert(n == d * q + r) by {
        vstd::arithmetic::div_mod::lemma_fundamental_div_mod(n as int, d as int);
    }
    let e: nat = if 2 * r >= d { 1 } else { 0 };
    let rem: int = 2 * r + d - 2 * d * e;
    assert(0 <= rem < 2 * d);
    assert(2 * n + d == (2 * d) * (q + e) + rem) by (nonlinear_arith)
        requires
            n == d * q + r,
            rem == 2 * r + d - 2 * d * e,
    ;
    vstd::arithmetic::div_mod::lemma_fundamental_div_mod_converse(
        (2 * n + d) as int,
        (2 * d) as int,
        (q + e) as int,
        rem,
    );
}

/// A quotient that is whole is left as it is.
pub proof fn lemma_round_div_exact(q: nat, d: nat)
    requires
        d > 0,
    ensures
        round_div(q * d, d) == q,
{
    assert(2 * (q * d) + d == q * (2 * d) + d) by (nonlinear_arith);
    vstd::arithmetic::div_mod::lemma_fundamental_div_mod_converse(
        (2 * (q * d) + d) as int,
        (2 * d) as int,
        q as int,
        d as int,
    );
}

/// A larger dividend never gives a smaller rounded quotient.
pub proof fn lemma_round_div_monotone(n1: nat, n2: nat, d: nat)
    requires
        d > 0,
        n1 <= n2,
    ensures
        round_div(n1, d) <= round_div(n2, d),
{
    vstd::arithmetic::div_mod::lemma_div_is_ordered(
        (2 * n1 + d) as int,
        (2 * n2 + d) as int,
        (2 * d) as int,
    );
}

/// Scaling `u` by a fraction `a / d` of at most one gives at most `u`.
pub proof fn lemma_round_div_fraction(a: nat, u: nat, d: nat)
    requires
        d > 0,
        a <= d,
    ensures
        round_div(a * u, d) <= u,
{
    assert(a * u <= u * d) by (nonlinear_arith)
        requires
            a <= d,
    ;
    lemma_round_div_monotone(a * u, u * d, d);
    lemma_round_div_exact(u, d);
}

} // verus!
