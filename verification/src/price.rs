//! Price records: one observed exchange rate for a collateral pair.

use vstd::prelude::*;

verus! {

use crate::pair::CollateralPair;
use crate::symbol::Symbol;

/// Number of decimal places of the fixed-point rate representation.
pub const RATE_DECIMALS: u32 = 6;

/// One price observation: the rate of `fsym` denominated in `tsym`.
///
/// The rate is held in fixed point with six decimal places: a stored value
/// of `1_500_000` means a rate of `1.5`. Negative rates have no
/// representation; rejecting them is part of building a `Price`.
#[derive(Debug, Clone, Copy, PartialEq, Eq, Hash, Structural)]
pub struct Price {
    pub fsym: Symbol,
    pub tsym: Symbol,
    /// Exchange rate in fixed point, `RATE_DECIMALS` decimal places.
    pub rate: u64,
    /// Seconds since the Unix epoch at observation time.
    pub timestamp: u64,
}

impl Price {
    /// The collateral pair this price was observed for.
    pub fn collateral_pair(&self) -> (r: CollateralPair)
        ensures
            r == (CollateralPair { fsym: self.fsym, tsym: self.tsym }),
    {
        CollateralPair { fsym: self.fsym, tsym: self.tsym }
    }
}

} // verus!
