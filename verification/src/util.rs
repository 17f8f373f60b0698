//! Shared arithmetic helpers: greatest common divisor and least common
//! multiple.

use vstd::prelude::*;

verus! {

/// Euclid's greatest common divisor.
pub open spec fn gcd_spec(a: nat, b: nat) -> nat
    decreases a,
{
    if a == 0 {
        b
    } else {
        gcd_spec(b % a, a)
    }
}

/// The greatest common divisor is zero only for two zeros.
pub proof fn lemma_gcd_zero(a: nat, b: nat)
    requires
        gcd_spec(a, b) == 0,
    ensures
        a == 0 && b == 0,
    decreases a,
{
    if a != 0 {
        lemma_gcd_zero(b % a, a);
    }
}

/// The least common multiple, as the product divided by the greatest common
/// divisor; zero when both arguments are zero.
pub open spec fn lcm_spec(a: nat, b: nat) -> nat {
    if gcd_spec(a, b) == 0 {
        0
    } else {
        a * b / gcd_spec(a, b)
    }
}

/// The least common multiple never exceeds the product.
pub proof fn lemma_lcm_le_product(a: nat, b: nat)
    ensures
        lcm_spec(a, b) <= a * b,
{
    if gcd_spec(a, b) != 0 {
        let g = gcd_spec(a, b);
        assert(a * b / g <= a * b) by (nonlinear_arith)
            requires
                g >= 1,
        ;
    }
}

/// Greatest common divisor by Euclid's algorithm.
pub fn gcd(a: u64, b: u64) -> (r: u64)
    ensures
        r as nat == gcd_spec(a as nat, b as nat),
{
    let mut x = a;
    let mut y = b;
    while x != 0
        invariant
            gcd_spec(x as nat, y as nat) == gcd_spec(a as nat, b as nat),
        decreases x,
    {
        let t = y % x;
        y = x;
        x = t;
    }
    y
}

/// Least common multiple. The product must fit in the machine word, and at
/// least one argument must be nonzero.
pub fn lcm(a: u64, b: u64) -> (r: u64)
    requires
        a * b <= u64::MAX,
        a != 0 || b != 0,
    ensures
        r as nat == lcm_spec(a as nat, b as nat),
{
    let g = gcd(a, b);
    proof {
        if g == 0 {
            lemma_gcd_zero(a as nat, b as nat);
        }
    }
    (a * b) / g
}

} // verus!
