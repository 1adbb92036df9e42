use vstd::prelude::*;

verus! {

/// `n`, or the largest `usize` where `n` does not fit.
pub open spec fn capped(n: nat) -> usize {
    if n > usize::MAX {
        usize::MAX
    } else {
        n as usize
    }
}

/// Adding capped values and capping again is capping the exact sum.
pub proof fn lemma_capped_add(a: nat, b: nat)
    ensures
        capped(capped(a) as nat + capped(b) as nat) == capped(a + b),
{
}

/// Multiplying a capped value and capping again is capping the exact product.
pub proof fn lemma_capped_mul(a: nat, b: nat)
    ensures
        capped(capped(a) as nat * b) == capped(a * b),
{
    if a > usize::MAX && b > 0 {
        assert(usize::MAX as nat * b >= usize::MAX) by (nonlinear_arith)
            requires
                b > 0,
        ;
        assert(a * b >= usize::MAX) by (nonlinear_arith)
            requires
                b > 0,
                a > usize::MAX,
        ;
    }
}

/// `a * b`, or the largest `usize` where the product does not fit.
pub fn saturating_product(a: usize, b: usize) -> (r: usize)
    ensures
        r == capped(a as nat * b as nat),
{
    match a.checked_mul(b) {
        Some(p) => p,
        None => usize::MAX,
    }
}

/// Euclid's greatest common divisor, with `gcd(0, b) == b`.
pub open spec fn spec_gcd(a: nat, b: nat) -> nat
    decreases a,
{
    if a == 0 {
        b
    } else {
        spec_gcd(b % a, a)
    }
}

/// The greatest common divisor, by Euclid's remainders.
pub fn gcd(a: usize, b: usize) -> (r: usize)
    ensures
        r == spec_gcd(a as nat, b as nat),
{
    let mut r: (usize, usize) = (a, b);
    while r.0 != 0
        invariant
            spec_gcd(r.0 as nat, r.1 as nat) == spec_gcd(a as nat, b as nat),
        decreases r.0,
    {
        let ghost x = r.0;
        let ghost y = r.1;
        let q = r.1 / r.0;
        proof {
            vstd::arithmetic::div_mod::lemma_fundamental_div_mod(y as int, x as int);
            assert(q * x <= y) by (nonlinear_arith)
                requires
                    y == x * (y / x) + y % x,
                    q == y / x,
                    y % x >= 0,
            ;
        }
        std::mem::swap(&mut r.0, &mut r.1);
        r.0 = r.0 - q * r.1;
        assert(r.0 == y % x);
        assert(r.1 == x);
    }
    r.1
}

/// The least common multiple, as `a * b / gcd(a, b)`.
pub fn lcm(a: usize, b: usize) -> (r: usize)
    requires
        a * b <= usize::MAX,
        a != 0 || b != 0,
    ensures
        r == (a * b) as nat / spec_gcd(a as nat, b as nat),
{
    let g = gcd(a, b);
    proof { lemma_gcd_positive(a as nat, b as nat); }
    a * b / g
}

proof fn lemma_gcd_positive(a: nat, b: nat)
    requires
        a != 0 || b != 0,
    ensures
        spec_gcd(a, b) > 0,
    decreases a,
{
    if a != 0 {
        lemma_gcd_positive(b % a, a);
    }
}

} // verus!
