//! A live board of option quotes for one underlying, with the selections and
//! aggregations that analysis runs over a consistent snapshot of it.
//!
//! Prices are fixed-point integers in price units, timestamps are seconds
//! since the Unix epoch, and implied volatilities are fractions scaled by
//! `IV_SCALE`.
pub mod tick;
pub mod quote;
pub mod board;
pub mod chain;
pub mod instrument;

pub use instrument::{parse_instrument, InstrumentId};
pub use quote::{mid_iv, IV_SCALE};
pub use tick::{OptionTick, OptionType, OptionValue};
pub use board::OptionBoard;
pub use chain::{MaturitySchedule, OptionChain, SelectionError};
