//! Powers of two on machine integers.

use vstd::arithmetic::div_mod::*;
use vstd::arithmetic::mul::*;
use vstd::arithmetic::power2::*;
use vstd::bits::*;
use vstd::prelude::*;

verus! {

/// `n` is a power of two.
pub open spec fn is_two_power(n: nat) -> bool {
    exists|k: nat| n == #[trigger] pow2(k)
}

/// The exponent of a power of two.
pub open spec fn log2(n: nat) -> nat {
    choose|k: nat| n == #[trigger] pow2(k)
}

/// An exponent is determined by its power of two.
pub proof fn lemma_log2(k: nat)
    ensures
        is_two_power(pow2(k)),
        log2(pow2(k)) == k,
{
    let j = log2(pow2(k));
    assert(pow2(k) == pow2(j));
    if j < k {
        lemma_pow2_strictly_increases(j, k);
    } else if k < j {
        lemma_pow2_strictly_increases(k, j);
    }
}

/// Powers of two grow with the exponent.
pub proof fn lemma_pow2_monotone(a: nat, b: nat)
    requires
        a <= b,
    ensures
        pow2(a) <= pow2(b),
        pow2(a) >= 1,
{
    lemma_pow2_pos(a);
    if a < b {
        lemma_pow2_strictly_increases(a, b);
    }
}

/// A power of two that fits in a `usize` has an exponent below the width of `usize`, and its
/// double less two fits as well.
pub proof fn lemma_exponent_fits(k: nat)
    requires
        pow2(k) <= usize::MAX,
    ensures
        k < usize::BITS,
        2 * pow2(k) - 2 <= usize::MAX,
{
    lemma2_to64();
    lemma2_to64_rest();
    if k >= usize::BITS {
        lemma_pow2_monotone(usize::BITS as nat, k);
    } else {
        lemma_pow2_monotone(k, (usize::BITS - 1) as nat);
    }
}

/// The base two logarithm of `n`, if `n` is a power of two.
pub fn checked_log2(n: usize) -> (r: Option<usize>)
    ensures
        match r {
            Some(k) => n == pow2(k as nat) && k == log2(n as nat) && k < usize::BITS,
            None => !is_two_power(n as nat),
        },
{
    if n == 0 {
        assert forall|k: nat| 0 != #[trigger] pow2(k) by {
            lemma_pow2_pos(k);
        }
        return None;
    }
    let mut odd: usize = n;
    let mut k: usize = 0;
    proof {
        lemma2_to64();
        lemma_exponent_fits(0);
    }
    while odd % 2 == 0
        invariant
            odd > 0,
            n == odd * pow2(k as nat),
            k < usize::BITS,
        decreases odd,
    {
        let ghost before = odd;
        odd = odd / 2;
        proof {
            let p = pow2(k as nat);
            lemma_pow2_unfold(k as nat + 1);
            assert(before == 2 * odd);
            assert((2 * odd) * p == odd * (2 * p)) by (nonlinear_arith);
            assert(odd * (2 * p) >= 2 * p) by (nonlinear_arith)
                requires
                    odd >= 1,
                    p >= 0,
            ;
            lemma_exponent_fits(k as nat + 1);
        }
        k = k + 1;
    }
    if odd == 1 {
        proof {
            lemma_log2(k as nat);
        }
        Some(k)
    } else {
        assert(!is_two_power(n as nat)) by {
            if is_two_power(n as nat) {
                let e = log2(n as nat);
                let p = pow2(k as nat);
                lemma_pow2_pos(k as nat);
                assert(odd * p >= p) by (nonlinear_arith)
                    requires
                        odd >= 1,
                        p > 0,
                ;
                if e < k {
                    lemma_pow2_strictly_increases(e, k as nat);
                } else {
                    let d = (e - k) as nat;
                    lemma_pow2_adds(d, k as nat);
                    assert(odd == pow2(d)) by (nonlinear_arith)
                        requires
                            odd * p == pow2(d) * p,
                            p > 0,
                    ;
                    if d > 0 {
                        lemma_pow2_unfold(d);
                    } else {
                        lemma2_to64();
                    }
                }
            }
        }
        None
    }
}

/// The base two logarithm of a power of two.
pub fn log2_strict(n: usize) -> (r: usize)
    requires
        is_two_power(n as nat),
    ensures
        n == pow2(r as nat),
        r == log2(n as nat),
        r < usize::BITS,
{
    match checked_log2(n) {
        Some(k) => k,
        None => 0,
    }
}

/// `2 ** k` as a shift.
pub fn two_power(k: usize) -> (r: usize)
    requires
        pow2(k as nat) <= usize::MAX,
    ensures
        r == pow2(k as nat),
{
    proof {
        lemma_exponent_fits(k as nat);
        lemma_usize_shl_is_mul(1, k);
    }
    1usize << k
}

/// `x / 2 ** k` as a shift.
pub fn shift_right(x: usize, k: usize) -> (r: usize)
    requires
        k < usize::BITS,
    ensures
        r == x as nat / pow2(k as nat),
{
    proof {
        lemma_usize_shr_is_div(x, k);
    }
    x >> k
}

/// Cancelling a factor in a quotient of powers of two.
pub proof fn lemma_div_pow2_twice(x: nat, a: nat, b: nat)
    ensures
        (x / pow2(a)) / pow2(b) == x / pow2(a + b),
{
    lemma_pow2_pos(a);
    lemma_pow2_pos(b);
    lemma_pow2_adds(a, b);
    lemma_div_denominator(x as int, pow2(a) as int, pow2(b) as int);
}

} // verus!
