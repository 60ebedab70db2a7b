use vstd::prelude::*;

verus! {

/// Whether a contract is a right to buy or to sell at the strike.
#[derive(Clone, Copy, Debug, PartialEq, Eq, Structural)]
pub enum OptionType {
    Call,
    Put,
}

/// The quoted value that a tick carries.
#[derive(Clone, Copy, Debug, PartialEq, Eq, Structural)]
pub enum OptionValue {
    /// An implied volatility, as a fraction scaled by `IV_SCALE`.
    ImpliedVolatility(i64),
    /// A quoted option price, in price units.
    Price(i64),
}

/// One quote for one contract at the time it was observed.
#[derive(Clone, Copy, Debug, PartialEq, Eq, Structural)]
pub struct OptionTick {
    /// Strike price, in price units.
    pub strike: i64,
    /// Expiry instant, in seconds since the Unix epoch (UTC).
    pub maturity: i64,
    pub option_type: OptionType,
    /// Spot price of the underlying, in price units.
    pub asset_price: i64,
    pub option_value: OptionValue,
    /// Number of outstanding contracts.
    pub open_interest: u64,
}

/// What identifies a contract: its maturity, strike and type.
pub type ContractKey = (i64, i64, OptionType);

impl OptionTick {
    pub open spec fn key(self) -> ContractKey {
        (self.maturity, self.strike, self.option_type)
    }

    /// A call above spot, or a put below it.
    pub open spec fn is_otm(self) -> bool {
        match self.option_type {
            OptionType::Call => self.strike > self.asset_price,
            OptionType::Put => self.strike < self.asset_price,
        }
    }

    /// Distance of the strike from spot.
    pub open spec fn moneyness_distance(self) -> int {
        let d = self.strike - self.asset_price;
        if d < 0 { -d } else { d }
    }

    pub open spec fn iv_spec(self) -> Option<i64> {
        match self.option_value {
            OptionValue::ImpliedVolatility(v) => Some(v),
            OptionValue::Price(_) => None,
        }
    }

    pub fn same_contract(&self, other: &OptionTick) -> (r: bool)
        ensures
            r == (self.key() == other.key()),
    {
        self.maturity == other.maturity && self.strike == other.strike
            && self.option_type == other.option_type
    }

    pub fn is_out_of_the_money(&self) -> (r: bool)
        ensures
            r == self.is_otm(),
    {
        match self.option_type {
            OptionType::Call => self.strike > self.asset_price,
            OptionType::Put => self.strike < self.asset_price,
        }
    }

    /// The implied volatility, when the tick carries one.
    pub fn iv(&self) -> (r: Option<i64>)
        ensures
            r == self.iv_spec(),
    {
        match self.option_value {
            OptionValue::ImpliedVolatility(v) => Some(v),
            OptionValue::Price(_) => None,
        }
    }

    /// Distance of the strike from spot, exact in 128 bits.
    pub fn distance_to_spot(&self) -> (r: u128)
        ensures
            r as int == self.moneyness_distance(),
    {
        let d: i128 = self.strike as i128 - self.asset_price as i128;
        if d < 0 { (-d) as u128 } else { d as u128 }
    }
}

} // verus!
