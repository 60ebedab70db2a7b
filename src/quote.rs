use vstd::prelude::*;

verus! {

/// Scale of a stored implied volatility: a fraction `v` is held as
/// `v * IV_SCALE` (nano-units).
pub const IV_SCALE: i64 = 1_000_000_000;

/// Quoted volatilities arrive as percentages in micro-percent units
/// (`1` = 0.000001 %). One micro-percent is ten nano-units of a fraction.
pub const NANO_PER_MICRO_PERCENT: i64 = 10;

/// A side counts as unquoted when it is below the machine epsilon of the
/// feed's 64-bit floats. Every positive micro-percent value is far above that
/// epsilon, so on this integer scale "below epsilon" is "not positive".
pub open spec fn unquoted(v: int) -> bool {
    v <= 0
}

/// The mid implied volatility of a bid/ask pair, as a fraction scaled by
/// `IV_SCALE`; `None` when neither side is quoted.
pub open spec fn mid_iv_spec(bid: int, ask: int) -> Option<int> {
    if unquoted(bid) && unquoted(ask) {
        None
    } else if unquoted(ask) {
        Some(bid * 10)
    } else if unquoted(bid) {
        Some(ask * 10)
    } else {
        // ((bid + ask) / 2) micro-percent, at ten nano-units per micro-percent
        Some((bid + ask) * 5)
    }
}

/// Mid implied volatility from bid and ask quotes given in micro-percent.
/// A pair with no usable side gives `None`: such a tick is dropped.
/// One unquoted side gives the other; otherwise the mean of both. The result
/// is converted from percent to a fraction scaled by `IV_SCALE`.
pub fn mid_iv(bid: i32, ask: i32) -> (r: Option<i64>)
    ensures
        r matches Some(v) ==> Some(v as int) == mid_iv_spec(bid as int, ask as int),
        r is None <==> mid_iv_spec(bid as int, ask as int) is None,
        r matches Some(v) ==> v > 0,
{
    if bid <= 0 && ask <= 0 {
        None
    } else if ask <= 0 {
        Some(bid as i64 * NANO_PER_MICRO_PERCENT)
    } else if bid <= 0 {
        Some(ask as i64 * NANO_PER_MICRO_PERCENT)
    } else {
        Some((bid as i64 + ask as i64) * 5)
    }
}

} // verus!
