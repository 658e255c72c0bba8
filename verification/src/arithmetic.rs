//! Divisibility and integer square roots on `u128`.

use vstd::prelude::*;

verus! {

/// `candidate` is a divisor of `dividend`: a positive integer that leaves no remainder.
pub open spec fn divides(dividend: u128, candidate: u128) -> bool {
    candidate != 0 && dividend % candidate == 0
}

/// `root` is the integer square root of `n`: the largest integer whose square
/// does not exceed `n`.
pub open spec fn is_floor_sqrt(n: nat, root: nat) -> bool {
    root * root <= n < (root + 1) * (root + 1)
}

/// The integer square root of `n`.
pub open spec fn floor_sqrt(n: nat) -> nat {
    choose|root: nat| is_floor_sqrt(n, root)
}

/// `num_traits::Zero::is_zero` for `u128`, which compares the value with the
/// additive identity `0`. Trusted: the result is `true` exactly for zero.
#[verifier::external_body]
fn is_zero(value: u128) -> (zero: bool)
    ensures
        zero == (value == 0),
{
    num_traits::Zero::is_zero(&value)
}

/// `integer_sqrt::IntegerSquareRoot::integer_sqrt` for `u128`, documented as the
/// integer square root and never failing on unsigned input. Trusted: the result
/// is the largest integer whose square does not exceed `number`.
#[verifier::external_body]
pub(crate) fn integer_sqrt(number: u128) -> (root: u128)
    ensures
        is_floor_sqrt(number as nat, root as nat),
{
    integer_sqrt::IntegerSquareRoot::integer_sqrt(&number)
}

/// Tells whether `divisor` evenly divides `dividend`. Zero divides nothing.
pub fn is_divisible(dividend: u128, divisor: u128) -> (divisible: bool)
    ensures
        divisible == divides(dividend, divisor),
{
    divisor != 0 && is_zero(dividend % divisor)
}

/// Every natural number has an integer square root.
pub proof fn lemma_floor_sqrt_exists(n: nat)
    ensures
        exists|root: nat| is_floor_sqrt(n, root),
    decreases n,
{
    if n == 0 {
        assert(is_floor_sqrt(0, 0)) by (nonlinear_arith);
    } else {
        let m = (n - 1) as nat;
        lemma_floor_sqrt_exists(m);
        let below = choose|root: nat| is_floor_sqrt(m, root);
        if (below + 1) * (below + 1) <= n {
            assert((below + 2) * (below + 2) > (below + 1) * (below + 1)) by (nonlinear_arith);
            assert(is_floor_sqrt(n, below + 1));
        } else {
            assert(is_floor_sqrt(n, below));
        }
    }
}

/// A natural number has only one integer square root.
pub proof fn lemma_floor_sqrt_unique(n: nat, a: nat, b: nat)
    requires
        is_floor_sqrt(n, a),
        is_floor_sqrt(n, b),
    ensures
        a == b,
{
    if a < b {
        assert((a + 1) * (a + 1) <= b * b) by (nonlinear_arith)
            requires
                a + 1 <= b,
        ;
    } else if b < a {
        assert((b + 1) * (b + 1) <= a * a) by (nonlinear_arith)
            requires
                b + 1 <= a,
        ;
    }
}

/// `floor_sqrt(n)` is the integer square root of `n`, and the only one.
pub proof fn lemma_floor_sqrt(n: nat)
    ensures
        is_floor_sqrt(n, floor_sqrt(n)),
        forall|root: nat| is_floor_sqrt(n, root) ==> root == floor_sqrt(n),
{
    lemma_floor_sqrt_exists(n);
    assert forall|root: nat| is_floor_sqrt(n, root) implies root == floor_sqrt(n) by {
        lemma_floor_sqrt_unique(n, root, floor_sqrt(n));
    }
}

/// The integer square root of a `u128` fits in 64 bits.
pub proof fn lemma_floor_sqrt_bound(number: u128)
    ensures
        floor_sqrt(number as nat) < 0x1_0000_0000_0000_0000,
{
    lemma_floor_sqrt(number as nat);
    let root = floor_sqrt(number as nat);
    if root >= 0x1_0000_0000_0000_0000 {
        assert(root * root >= 0x1_0000_0000_0000_0000 * 0x1_0000_0000_0000_0000)
            by (nonlinear_arith)
            requires
                root >= 0x1_0000_0000_0000_0000,
        ;
    }
}

} // verus!
