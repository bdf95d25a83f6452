use vstd::prelude::*;

use crate::errors::EngineError;
use crate::price::{price_ok, price_units, Price};

verus! {

/// `rust_decimal::Decimal` is the exact decimal type hosts hand prices in.
/// It is opaque here: a value of it is taken apart into its mantissa and
/// scale, and all further logic runs on those plain integers.
#[verifier::external_type_specification]
#[verifier::external_body]
pub struct ExDecimal(rust_decimal::Decimal);

/// The mantissa a decimal reports: a function of the decimal value alone.
pub uninterp spec fn mantissa_of(d: rust_decimal::Decimal) -> int;

/// The scale a decimal reports (its count of fractional decimal digits): a
/// function of the decimal value alone.
pub uninterp spec fn scale_of(d: rust_decimal::Decimal) -> nat;

/// Relies on `rust_decimal::Decimal::mantissa`: the result depends on the
/// decimal alone, and is the 96-bit magnitude (`lo | mid << 32 | hi << 64`),
/// negated for a negative decimal, so it always lies strictly between
/// `-2^96` and `2^96`.
pub assume_specification[ rust_decimal::Decimal::mantissa ](d: &rust_decimal::Decimal) -> (m:
    i128)
    ensures
        m == mantissa_of(*d),
        -0x1000000000000000000000000 < m < 0x1000000000000000000000000,
;

/// Relies on `rust_decimal::Decimal::scale`: the result depends on the
/// decimal alone, and is its number of fractional decimal digits, which
/// every `Decimal` constructor caps at `rust_decimal::Decimal::MAX_SCALE`,
/// 28.
pub assume_specification[ rust_decimal::Decimal::scale ](d: &rust_decimal::Decimal) -> (s: u32)
    ensures
        s == scale_of(*d),
        s <= 28,
;

impl Price {
    /// Builds a price from an exact decimal amount. The decimal's value is
    /// `mantissa * 10^-scale`; the conversion succeeds, with the unit count
    /// pinned by `price_units`, exactly when that value is a valid price
    /// input (`price_ok`: positive, exact at the fixed scale, in range), and
    /// fails with `InvalidPrice` otherwise.
    pub fn from_decimal(d: &rust_decimal::Decimal) -> (r: Result<Price, EngineError>)
        ensures
            price_ok(mantissa_of(*d), scale_of(*d)) ==> (r matches Ok(p) && p.units
                == price_units(mantissa_of(*d), scale_of(*d)) && p.wf()),
            !price_ok(mantissa_of(*d), scale_of(*d)) ==> r == Err::<Price, EngineError>(
                EngineError::InvalidPrice,
            ),
    {
        let m = d.mantissa();
        let s = d.scale();
        Price::new(m, s)
    }
}

} // verus!
