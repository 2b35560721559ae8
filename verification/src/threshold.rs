//! The optimal capacity of the unsorted region: for a table of `n` entries
//! the resort sets the capacity to the cube root of `n^2 * log2(n)`, which
//! balances the cost of linearly scanning the unsorted region against the
//! cost of the periodic full resort.

use vstd::prelude::*;

use vstd::arithmetic::power2::{lemma2_to64, lemma2_to64_rest, lemma_pow2_strictly_increases, pow2};

verus! {

/// Ceiling on the computed capacity. The formula only reaches it on tables
/// of more than 2^42 entries, beyond any size a machine can hold.
pub const THRESHOLD_CAP: usize = 0x4000_0000;

/// Floor of the base-2 logarithm.
pub open spec fn log2(n: nat) -> nat
    decreases n,
{
    if n <= 1 {
        0
    } else {
        1 + log2(n / 2)
    }
}

/// `k` is the capacity the formula assigns to a table of `n` entries: the
/// integer cube root of `n^2 * log2(n)`, clamped to `0` for `n <= 1` (where
/// the logarithm degenerates) and to `THRESHOLD_CAP` from above.
pub open spec fn is_threshold(k: nat, n: nat) -> bool {
    if n <= 1 {
        k == 0
    } else {
        let x = n * n * log2(n);
        &&& k <= THRESHOLD_CAP
        &&& k * k * k <= x
        &&& (k == THRESHOLD_CAP || (k + 1) * (k + 1) * (k + 1) > x)
    }
}

/// For n >= 1, 2^log2(n) <= n.
proof fn lemma_pow2_log2_le(n: nat)
    requires
        n >= 1,
    ensures
        pow2(log2(n)) <= n,
    decreases n,
{
    if n <= 1 {
        assert(pow2(0) == 1) by {
            lemma2_to64();
        }
    } else {
        lemma_pow2_log2_le(n / 2);
        assert(pow2(log2(n)) == 2 * pow2(log2(n / 2))) by {
            assert(pow2(log2(n / 2) + 1) == 2 * pow2(log2(n / 2))) by {
                vstd::arithmetic::power2::lemma_pow2_unfold(log2(n / 2) + 1);
            }
        }
    }
}

/// The logarithm of a machine word is below 64.
proof fn lemma_log2_bound(n: nat)
    requires
        n < 0x1_0000_0000_0000_0000,
    ensures
        log2(n) <= 63,
{
    if n >= 1 {
        lemma_pow2_log2_le(n);
        if log2(n) > 63 {
            if log2(n) > 64 {
                lemma_pow2_strictly_increases(64, log2(n));
            }
            assert(pow2(64) == 0x10000000000000000) by {
                lemma2_to64_rest();
            }
            assert(false);
        }
    }
}

/// Monotonicity of the logarithm in the argument's halving chain is all the
/// executable computation needs: `log2(n) == steps + log2(rest)` while
/// `rest` halves.
fn ilog2(n: usize) -> (r: usize)
    ensures
        r == log2(n as nat),
        r <= 63,
{
    let mut v: usize = n;
    let mut r: usize = 0;
    proof {
        lemma_log2_bound(n as nat);
    }
    while v >= 2
        invariant
            log2(n as nat) == r + log2(v as nat),
            log2(n as nat) <= 63,
        decreases v,
    {
        proof {
            assert(log2(v as nat) == 1 + log2((v / 2) as nat));
        }
        v = v / 2;
        r = r + 1;
    }
    r
}

/// The capacity the resort formula assigns to a table of `n` entries.
pub fn threshold_for(n: usize) -> (r: usize)
    ensures
        is_threshold(r as nat, n as nat),
{
    if n <= 1 {
        return 0;
    }
    let l = ilog2(n);
    proof {
        if log2(n as nat) == 0 {
            assert(false);
        }
    }
    if n as u64 >= 0x2000_0000_0000 {
        // n >= 2^45: the true cube root already exceeds the cap, because
        // n^2 * log2(n) >= 2^90 == (2^30)^3.
        proof {
            let nn = n as nat;
            assert(nn * nn >= 0x2000_0000_0000 * 0x2000_0000_0000) by (nonlinear_arith)
                requires
                    nn >= 0x2000_0000_0000,
            ;
            assert(nn * nn * log2(nn) >= nn * nn) by (nonlinear_arith)
                requires
                    log2(nn) >= 1,
                    nn * nn >= 0,
            ;
            assert((THRESHOLD_CAP as nat) * (THRESHOLD_CAP as nat) * (THRESHOLD_CAP as nat)
                <= nn * nn * log2(nn));
        }
        return THRESHOLD_CAP;
    }
    // n < 2^45 and log2(n) <= 63, so n^2 * log2(n) < 2^96 and the product
    // is exact in u128.
    let n128 = n as u128;
    let l128 = l as u128;
    proof {
        assert((n as nat) * (n as nat) < 0x2000_0000_0000 * 0x2000_0000_0000)
            by (nonlinear_arith)
            requires
                (n as nat) < 0x2000_0000_0000,
        ;
        assert((n as nat) * (n as nat) * (l as nat) < 0x2000_0000_0000 * 0x2000_0000_0000 * 64)
            by (nonlinear_arith)
            requires
                (n as nat) * (n as nat) < 0x2000_0000_0000 * 0x2000_0000_0000,
                (l as nat) < 64,
        ;
    }
    let x: u128 = n128 * n128 * l128;
    // Largest m <= THRESHOLD_CAP with m^3 <= x, by binary search on the
    // lower end of the bracket.
    let mut lo: usize = 0;
    let mut hi: usize = THRESHOLD_CAP;
    while lo < hi
        invariant
            lo <= hi <= THRESHOLD_CAP,
            x == (n as nat) * (n as nat) * log2(n as nat),
            (lo as nat) * (lo as nat) * (lo as nat) <= x,
            hi < THRESHOLD_CAP ==> ((hi + 1) as nat) * ((hi + 1) as nat) * ((hi + 1) as nat) > x,
        decreases hi - lo,
    {
        let mid = lo + (hi - lo + 1) / 2;
        let m = mid as u128;
        proof {
            assert((mid as nat) * (mid as nat) <= 0x4000_0000 * 0x4000_0000) by (nonlinear_arith)
                requires
                    0 <= (mid as nat) <= 0x4000_0000,
            ;
            assert((mid as nat) * (mid as nat) * (mid as nat) <= 0x4000_0000 * 0x4000_0000
                * 0x4000_0000) by (nonlinear_arith)
                requires
                    0 <= (mid as nat) <= 0x4000_0000,
                    (mid as nat) * (mid as nat) <= 0x4000_0000 * 0x4000_0000,
            ;
        }
        if m * m * m <= x {
            lo = mid;
        } else {
            hi = mid - 1;
        }
    }
    lo
}

} // verus!
