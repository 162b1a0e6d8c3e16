//! What it means for a natural number to be prime, and the test that decides it.

use vstd::arithmetic::div_mod::{lemma_fundamental_div_mod, lemma_mod_multiples_basic};
use vstd::prelude::*;

verus! {

/// `d` divides `n`.
pub open spec fn divides(d: nat, n: nat) -> bool {
    d != 0 && n % d == 0
}

/// `n` is prime: at least 2, and divisible by nothing strictly between 1 and `n`.
pub open spec fn prime(n: nat) -> bool {
    n >= 2 && forall|d: nat| 1 < d < n ==> !divides(d, n)
}

/// `a` and `b` are both greater than 1 and multiply to `n`.
pub open spec fn factors(a: nat, b: nat, n: nat) -> bool {
    1 < a && 1 < b && a * b == n
}

/// `n` is composite: the product of two numbers greater than 1.
pub open spec fn composite(n: nat) -> bool {
    exists|a: nat, b: nat| factors(a, b, n)
}

/// A factor of a product divides it and is smaller than it.
proof fn lemma_factor_divides(a: nat, b: nat, n: nat)
    requires
        factors(a, b, n),
    ensures
        1 < a < n,
        divides(a, n),
{
    assert(a < a * b) by (nonlinear_arith)
        requires
            1 < a,
            1 < b,
    ;
    lemma_mod_multiples_basic(b as int, a as int);
    assert(b * a == a * b) by (nonlinear_arith);
}

/// A proper divisor of `n` greater than 1 splits `n` into two factors.
proof fn lemma_divisor_gives_factors(d: nat, n: nat)
    requires
        1 < d < n,
        divides(d, n),
    ensures
        factors(d, n / d, n),
{
    let q = n / d;
    lemma_fundamental_div_mod(n as int, d as int);
    assert(n == d * q);
    if q <= 1 {
        assert(d * q <= d) by (nonlinear_arith)
            requires
                q <= 1,
        ;
    }
}

/// From 2 on, every number is either prime or composite, never both; and no
/// composite number is below 4.
pub proof fn lemma_prime_or_composite(n: nat)
    ensures
        n >= 2 ==> (prime(n) <==> !composite(n)),
        composite(n) ==> n >= 4 && !prime(n),
{
    if composite(n) {
        let (a, b) = choose|a: nat, b: nat| factors(a, b, n);
        lemma_factor_divides(a, b, n);
        assert(a * b >= 4) by (nonlinear_arith)
            requires
                2 <= a,
                2 <= b,
        ;
    }
    if n >= 2 && !prime(n) {
        let d = choose|d: nat| 1 < d < n && divides(d, n);
        lemma_divisor_gives_factors(d, n);
    }
}

/// Trial division may stop at the square root: a number from 2 on with no
/// divisor in `2..x`, where `x * x` exceeds it, is prime.
proof fn lemma_trial_division_bound(n: nat, x: nat)
    requires
        n >= 2,
        x * x > n,
        forall|d: nat| 1 < d < x ==> !divides(d, n),
    ensures
        prime(n),
{
    assert forall|d: nat| 1 < d < n implies !divides(d, n) by {
        if divides(d, n) && d >= x {
            lemma_divisor_gives_factors(d, n);
            let q = n / d;
            assert(q < x) by (nonlinear_arith)
                requires
                    d >= x,
                    d * q == n,
                    x * x > n,
            ;
            assert(q * d == d * q) by (nonlinear_arith);
            lemma_factor_divides(q, d, n);
        }
    }
}

/// Whether `x` is still worth trying as a divisor of `num`: its square does
/// not exceed `num`. A square that does not fit in 64 bits exceeds every `num`.
fn possible_factor(x: u64, num: u64) -> (r: bool)
    ensures
        r == (x * x <= num),
{
    match x.checked_mul(x) {
        Some(square) => square <= num,
        None => false,
    }
}

/// Decides whether `num` is prime, by trial division up to its square root.
pub fn is_prime(num: u64) -> (r: bool)
    ensures
        r == prime(num as nat),
        num < 2 ==> !r,
        composite(num as nat) ==> !r,
{
    proof {
        lemma_prime_or_composite(num as nat);
    }
    if num < 2 {
        return false;
    }
    let mut x: u64 = 2;
    while x < num && possible_factor(x, num)
        invariant
            2 <= x <= num,
            forall|d: nat| 1 < d < x ==> !divides(d, num as nat),
        decreases num - x,
    {
        if num % x == 0 {
            assert(divides(x as nat, num as nat));
            return false;
        }
        x = x + 1;
    }
    proof {
        if x < num {
            lemma_trial_division_bound(num as nat, x as nat);
        }
    }
    true
}

} // verus!
