use vstd::arithmetic::div_mod::{
    lemma_div_multiples_vanish, lemma_fundamental_div_mod, lemma_mod_multiples_basic,
};
use vstd::arithmetic::mul::{lemma_mul_equality_converse, lemma_mul_is_associative};
use vstd::prelude::*;

use crate::errors::EngineError;

verus! {

/// Number of fractional decimal digits a `Price` keeps.
pub const PRICE_SCALE: u32 = 5;

/// A limit price: an exact, totally ordered value with a fixed decimal scale,
/// held as the number of `10^-PRICE_SCALE` units. Two prices built from
/// numerically equal decimal inputs hold the same `units`, so equality,
/// ordering and hashing are stable. A well-formed price is strictly positive.
#[derive(Clone, Copy, Debug, PartialEq, Eq, Hash, Structural)]
pub struct Price {
    pub units: u64,
}

/// `10^n`.
pub open spec fn pow10(n: nat) -> int
    decreases n,
{
    if n == 0 {
        1
    } else {
        10 * pow10((n - 1) as nat)
    }
}

/// The scaled-unit count a decimal `m * 10^-scale` maps to. For inputs more
/// precise than the fixed scale this is the truncated quotient; such an input
/// is accepted only when `price_exact` also holds.
pub open spec fn price_units(m: int, scale: nat) -> int {
    if scale <= PRICE_SCALE {
        m * pow10((PRICE_SCALE - scale) as nat)
    } else {
        m / pow10((scale - PRICE_SCALE) as nat)
    }
}

/// Whether `m * 10^-scale` is representable without loss at the fixed scale.
pub open spec fn price_exact(m: int, scale: nat) -> bool {
    scale > PRICE_SCALE ==> m % pow10((scale - PRICE_SCALE) as nat) == 0
}

/// Whether `m * 10^-scale` is a valid price input: strictly positive, exact
/// at the fixed scale, and small enough for the internal representation.
pub open spec fn price_ok(m: int, scale: nat) -> bool {
    &&& m > 0
    &&& price_exact(m, scale)
    &&& price_units(m, scale) <= u64::MAX
}

pub proof fn lemma_pow10_pos(n: nat)
    ensures
        pow10(n) >= 1,
    decreases n,
{
    if n > 0 {
        lemma_pow10_pos((n - 1) as nat);
    }
}

pub proof fn lemma_pow10_adds(a: nat, b: nat)
    ensures
        pow10(a + b) == pow10(a) * pow10(b),
    decreases a,
{
    if a == 0 {
        assert(pow10(b) == 1 * pow10(b));
    } else {
        lemma_pow10_adds((a - 1) as nat, b);
        lemma_mul_is_associative(10, pow10((a - 1) as nat), pow10(b));
    }
}

impl Price {
    /// Whether this price is well formed: strictly positive.
    pub open spec fn wf(self) -> bool {
        self.units > 0
    }

    /// Builds a price from an exact decimal amount given as a mantissa and a
    /// decimal scale (the value is `mantissa * 10^-scale`). Fails with
    /// `InvalidPrice` exactly when the value is not positive, carries more
    /// precision than `PRICE_SCALE` fractional digits, or exceeds the largest
    /// representable price.
    pub fn new(mantissa: i128, scale: u32) -> (r: Result<Price, EngineError>)
        ensures
            price_ok(mantissa as int, scale as nat) ==> (r matches Ok(p) && p.units
                == price_units(mantissa as int, scale as nat) && p.wf()),
            !price_ok(mantissa as int, scale as nat) ==> r == Err::<Price, EngineError>(
                EngineError::InvalidPrice,
            ),
    {
        if mantissa <= 0 {
            return Err(EngineError::InvalidPrice);
        }
        let mut v: i128 = mantissa;
        if scale <= PRICE_SCALE {
            let k = PRICE_SCALE - scale;
            let mut i: u32 = 0;
            while i < k
                invariant
                    0 < mantissa,
                    i <= k,
                    k == PRICE_SCALE - scale,
                    scale <= PRICE_SCALE,
                    v == mantissa * pow10(i as nat),
                    v >= 1,
                decreases k - i,
            {
                if v > u64::MAX as i128 {
                    proof {
                        lemma_price_units_grows(mantissa as int, i as nat, k as nat, v as int);
                    }
                    return Err(EngineError::InvalidPrice);
                }
                proof {
                    lemma_pow10_pos(i as nat);
                    lemma_pow10_adds(i as nat, 1);
                    lemma_mul_is_associative(mantissa as int, pow10(i as nat), 10);
                }
                v = v * 10;
                i = i + 1;
            }
            if v > u64::MAX as i128 {
                return Err(EngineError::InvalidPrice);
            }
            Ok(Price { units: v as u64 })
        } else {
            let k = scale - PRICE_SCALE;
            let mut i: u32 = 0;
            while i < k
                invariant
                    0 < mantissa,
                    i <= k,
                    k == scale - PRICE_SCALE,
                    scale > PRICE_SCALE,
                    mantissa == v * pow10(i as nat),
                    v >= 1,
                decreases k - i,
            {
                if v % 10 != 0 {
                    proof {
                        lemma_price_not_exact(mantissa as int, i as nat, k as nat, v as int);
                    }
                    return Err(EngineError::InvalidPrice);
                }
                proof {
                    lemma_fundamental_div_mod(v as int, 10);
                    lemma_pow10_adds(i as nat, 1);
                    lemma_pow10_pos(i as nat);
                    lemma_mul_is_associative(v as int / 10, 10, pow10(i as nat));
                }
                v = v / 10;
                i = i + 1;
            }
            proof {
                lemma_pow10_pos(k as nat);
                lemma_mod_multiples_basic(v as int, pow10(k as nat));
                lemma_div_multiples_vanish(v as int, pow10(k as nat));
            }
            if v > u64::MAX as i128 {
                return Err(EngineError::InvalidPrice);
            }
            Ok(Price { units: v as u64 })
        }
    }
}

/// With `m >= 1` partially rescaled to `v = m * 10^i > u64::MAX`, the fully
/// rescaled unit count `m * 10^k` (for `k >= i`) is at least as large, so the
/// price is out of range.
proof fn lemma_price_units_grows(m: int, i: nat, k: nat, v: int)
    requires
        m > 0,
        i <= k,
        v == m * pow10(i),
        v > u64::MAX,
    ensures
        m * pow10(k) > u64::MAX,
{
    lemma_pow10_adds(i, (k - i) as nat);
    lemma_pow10_pos((k - i) as nat);
    lemma_mul_is_associative(m, pow10(i), pow10((k - i) as nat));
    assert(v * pow10((k - i) as nat) >= v) by (nonlinear_arith)
        requires
            v >= 1,
            pow10((k - i) as nat) >= 1,
    ;
}

/// If dividing out `i` of the `k` excess decimal digits leaves a value `v`
/// that is not a multiple of ten, then `m` is not a multiple of `10^k`: the
/// input carries more precision than the fixed scale.
proof fn lemma_price_not_exact(m: int, i: nat, k: nat, v: int)
    requires
        m > 0,
        i < k,
        m == v * pow10(i),
        v >= 1,
        v % 10 != 0,
    ensures
        m % pow10(k) != 0,
{
    if m % pow10(k) == 0 {
        lemma_pow10_pos(k);
        lemma_pow10_pos(i);
        lemma_pow10_pos((k - i - 1) as nat);
        lemma_fundamental_div_mod(m, pow10(k));
        let q = m / pow10(k);
        assert(m == q * pow10(k));
        lemma_pow10_adds(i, (k - i) as nat);
        lemma_mul_is_associative(q, pow10((k - i) as nat), pow10(i));
        assert(q * pow10(k) == (q * pow10((k - i) as nat)) * pow10(i)) by {
            assert(pow10(k) == pow10((k - i) as nat) * pow10(i)) by {
                lemma_pow10_adds((k - i) as nat, i);
            }
            lemma_mul_is_associative(q, pow10((k - i) as nat), pow10(i));
        }
        lemma_mul_equality_converse(pow10(i), v, q * pow10((k - i) as nat));
        assert(v == q * pow10((k - i) as nat));
        assert(pow10((k - i) as nat) == pow10((k - i - 1) as nat) * 10) by {
            lemma_pow10_adds((k - i - 1) as nat, 1);
        }
        lemma_mul_is_associative(q, pow10((k - i - 1) as nat), 10);
        assert(v == (q * pow10((k - i - 1) as nat)) * 10);
        lemma_mod_multiples_basic(q * pow10((k - i - 1) as nat), 10);
        assert(v % 10 == 0);
    }
}

} // verus!
