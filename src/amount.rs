//! Exact fixed-point money values with four fractional digits.
use vstd::prelude::*;

verus! {

/// How many of the smallest units make up one whole unit of money.
pub const UNITS_PER_WHOLE: u64 = 10_000;

/// The factor that turns a decimal with `scale` fractional digits (at most
/// four) into ten-thousandths.
pub open spec fn scale_factor(scale: u32) -> int {
    if scale == 0 {
        10_000
    } else if scale == 1 {
        1_000
    } else if scale == 2 {
        100
    } else if scale == 3 {
        10
    } else {
        1
    }
}

fn scale_factor_exec(scale: u32) -> (r: u128)
    requires
        scale <= 4,
    ensures
        r as int == scale_factor(scale),
{
    if scale == 0 {
        10_000
    } else if scale == 1 {
        1_000
    } else if scale == 2 {
        100
    } else if scale == 3 {
        10
    } else {
        1
    }
}

/// A non-negative amount of money carried by a deposit or a withdrawal,
/// counted in ten-thousandths of a whole unit.
#[derive(Debug, Clone, Copy, PartialEq, Eq, Structural)]
pub struct Amount {
    pub units: u64,
}

impl Amount {
    /// The amount of `units` ten-thousandths.
    pub fn from_units(units: u64) -> (r: Amount)
        ensures
            r.units == units,
    {
        Amount { units }
    }

    /// The amount of `whole` whole units.
    pub fn from_whole(whole: u32) -> (r: Amount)
        ensures
            r.units == whole as int * UNITS_PER_WHOLE as int,
    {
        Amount { units: (whole as u64) * UNITS_PER_WHOLE }
    }

    /// The amount `mantissa / 10^scale`, if it has at most four fractional
    /// digits and fits.
    pub fn from_scaled(mantissa: u128, scale: u32) -> (r: Option<Amount>)
        ensures
            r is Some <==> (scale <= 4 && mantissa as int * scale_factor(scale) <= u64::MAX as int),
            r matches Some(a) ==> a.units as int == mantissa as int * scale_factor(scale),
    {
        if scale > 4 {
            return None;
        }
        let factor = scale_factor_exec(scale);
        match mantissa.checked_mul(factor) {
            Some(units) => {
                if units <= u64::MAX as u128 {
                    Some(Amount { units: units as u64 })
                } else {
                    None
                }
            },
            None => None,
        }
    }
}

/// A signed balance of an account, counted in ten-thousandths of a whole unit.
#[derive(Debug, Clone, Copy, PartialEq, Eq, Structural)]
pub struct Balance {
    pub units: i128,
}

impl Balance {
    /// The balance of `units` ten-thousandths.
    pub fn from_units(units: i128) -> (r: Balance)
        ensures
            r.units == units,
    {
        Balance { units }
    }

    /// The balance of `whole` whole units.
    pub fn from_whole(whole: i64) -> (r: Balance)
        ensures
            r.units == whole as int * UNITS_PER_WHOLE as int,
    {
        Balance { units: (whole as i128) * 10_000 }
    }

    /// The balance `mantissa / 10^scale`, if it has at most four fractional
    /// digits and fits.
    pub fn from_scaled(mantissa: i128, scale: u32) -> (r: Option<Balance>)
        ensures
            r is Some <==> (scale <= 4 && i128::MIN as int <= mantissa as int * scale_factor(scale)
                <= i128::MAX as int),
            r matches Some(b) ==> b.units as int == mantissa as int * scale_factor(scale),
    {
        if scale > 4 {
            return None;
        }
        let factor = scale_factor_exec(scale) as i128;
        match mantissa.checked_mul(factor) {
            Some(units) => Some(Balance { units }),
            None => None,
        }
    }
}

} // verus!
