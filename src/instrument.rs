use vstd::prelude::*;
use crate::tick::OptionType;
use vstd::string::StringSliceAdditionalSpecFns;

verus! {

/// Fixed-point scale of prices: a price `p` is held as `p * 10^PRICE_DECIMALS`.
pub const PRICE_DECIMALS: u32 = 4;

/// Day number of 1970-01-01, counting 0001-01-01 as day 1.
pub const UNIX_EPOCH_DAY: i64 = 719_163;

pub const SECONDS_PER_DAY: i64 = 86_400;

/// Contracts expire at 08:00 UTC on their expiry date.
pub const EXPIRY_SECOND_OF_DAY: i64 = 28_800;

/// The day number (0001-01-01 is day 1) of the date written in a
/// `DDMMMYY` code such as `10MAR23`, if the code names a date.
pub uninterp spec fn date_code_days(code: Seq<u8>) -> Option<int>;

/// The decimal written in `text`, as a mantissa and a scale
/// (value = mantissa / 10^scale), if the text is a decimal number.
pub uninterp spec fn decimal_parts(text: Seq<u8>) -> Option<(int, int)>;

/// Relies on chrono's `NaiveDate::parse_from_str` with the format `%d%b%y`
/// and on `Datelike::num_days_from_ce`: the day number of the date that the
/// code names, or `None` where it is not UTF-8 or names no date.
#[verifier::external_body]
fn date_code_day_number(code: &[u8]) -> (r: Option<i32>)
    ensures
        r matches Some(d) ==> date_code_days(code@) == Some(d as int),
        r is None <==> date_code_days(code@) is None,
{
    match std::str::from_utf8(code) {
        Ok(s) => match chrono::NaiveDate::parse_from_str(s, "%d%b%y") {
            Ok(d) => Some(chrono::Datelike::num_days_from_ce(&d)),
            Err(_) => None,
        },
        Err(_) => None,
    }
}

/// Relies on rust_decimal's `FromStr for Decimal`, with `Decimal::mantissa`
/// and `Decimal::scale`: the parts of the decimal written in `text`, or
/// `None` where it is not UTF-8 or not a decimal.
#[verifier::external_body]
fn parse_decimal(text: &[u8]) -> (r: Option<(i128, u32)>)
    ensures
        r matches Some(p) ==> decimal_parts(text@) == Some((p.0 as int, p.1 as int)),
        r is None <==> decimal_parts(text@) is None,
{
    match std::str::from_utf8(text) {
        Ok(s) => match s.parse::<rust_decimal::Decimal>() {
            Ok(d) => Some((d.mantissa(), d.scale())),
            Err(_) => None,
        },
        Err(_) => None,
    }
}

pub open spec fn pow10(n: nat) -> int
    decreases n,
{
    if n == 0 { 1 } else { 10 * pow10((n - 1) as nat) }
}

/// `m / 10^j` where `10^j` divides `m`.
pub open spec fn divided_exactly(m: int, j: nat) -> Option<int>
    decreases j,
{
    if j == 0 {
        Some(m)
    } else if m % 10 != 0 {
        None
    } else {
        divided_exactly(m / 10, (j - 1) as nat)
    }
}

/// The price `mantissa / 10^scale` in price units, where it is a positive
/// whole number of units that fits in an `i64`.
pub open spec fn price_units(mantissa: int, scale: int) -> Option<int> {
    let v = if scale <= PRICE_DECIMALS {
        Some(mantissa * pow10((PRICE_DECIMALS - scale) as nat))
    } else {
        divided_exactly(mantissa, (scale - PRICE_DECIMALS) as nat)
    };
    match v {
        Some(u) => if 0 < u <= i64::MAX { Some(u) } else { None },
        None => None,
    }
}

/// Converts a decimal's parts to price units; `None` where the value is not
/// a positive whole number of units or does not fit.
pub fn decimal_to_price_units(mantissa: i128, scale: u32) -> (r: Option<i64>)
    ensures
        r matches Some(u) ==> price_units(mantissa as int, scale as int) == Some(u as int),
        r is None <==> price_units(mantissa as int, scale as int) is None,
{
    if scale <= PRICE_DECIMALS {
        proof {
            reveal_with_fuel(pow10, 5);
        }
        let p: i128 = if scale == 0 {
            10000
        } else if scale == 1 {
            1000
        } else if scale == 2 {
            100
        } else if scale == 3 {
            10
        } else {
            1
        };
        assert(p as int == pow10((PRICE_DECIMALS - scale) as nat));
        if mantissa <= 0 || mantissa > i64::MAX as i128 {
            proof {
                assert(mantissa <= 0 ==> mantissa as int * p <= 0) by (nonlinear_arith)
                    requires p >= 1;
                assert(mantissa > i64::MAX ==> mantissa as int * p > i64::MAX) by (nonlinear_arith)
                    requires p >= 1;
            }
            return None;
        }
        assert(mantissa as int * p <= 0x7fff_ffff_ffff_ffff * 10000) by (nonlinear_arith)
            requires mantissa <= 0x7fff_ffff_ffff_ffff, 1 <= p <= 10000;
        let v: i128 = mantissa * p;
        assert(v > 0) by (nonlinear_arith)
            requires v == mantissa * p, mantissa > 0, p >= 1;
        assert(price_units(mantissa as int, scale as int) == if v <= i64::MAX { Some(v as int) } else { None::<int> });
        if v > i64::MAX as i128 {
            None
        } else {
            Some(v as i64)
        }
    } else {
        let ghost j0 = (scale - PRICE_DECIMALS) as nat;
        if mantissa <= 0 {
            proof { lemma_not_positive(mantissa as int, j0); }
            return None;
        }
        let mut m: i128 = mantissa;
        let mut j: u32 = scale - PRICE_DECIMALS;
        while j > 0
            invariant
                m > 0,
                scale > PRICE_DECIMALS,
                j0 == (scale - PRICE_DECIMALS) as nat,
                divided_exactly(m as int, j as nat) == divided_exactly(mantissa as int, j0),
            decreases j,
        {
            if m % 10 != 0 {
                assert(divided_exactly(m as int, j as nat) is None);
                return None;
            }
            assert(m >= 10);
            assert(divided_exactly(m as int, j as nat) == divided_exactly(m as int / 10, (j - 1) as nat));
            m = m / 10;
            j = j - 1;
        }
        assert(divided_exactly(m as int, 0) == Some(m as int));
        assert(divided_exactly(mantissa as int, j0) == Some(m as int));
        assert(price_units(mantissa as int, scale as int) == if m <= i64::MAX { Some(m as int) } else { None::<int> });
        if m > i64::MAX as i128 {
            None
        } else {
            Some(m as i64)
        }
    }
}

proof fn lemma_not_positive(m: int, j: nat)
    requires
        m <= 0,
    ensures
        divided_exactly(m, j) matches Some(u) ==> u <= 0,
    decreases j,
{
    if j > 0 && m % 10 == 0 {
        lemma_not_positive(m / 10, (j - 1) as nat);
    }
}

/// What identifies a listed option: maturity, strike and type.
#[derive(Clone, Copy, Debug, PartialEq, Eq, Structural)]
pub struct InstrumentId {
    /// Expiry instant, in seconds since the Unix epoch.
    pub maturity: i64,
    /// Strike, in price units.
    pub strike: i64,
    pub option_type: OptionType,
}

/// The expiry instant of the contracts of a day number.
pub open spec fn expiry_of_day(d: int) -> int {
    (d - UNIX_EPOCH_DAY) * SECONDS_PER_DAY + EXPIRY_SECOND_OF_DAY
}

/// The positions of the dashes among the first `n` bytes of `b`.
pub open spec fn dash_positions(b: Seq<u8>, n: int) -> Seq<int>
    decreases n,
{
    if n <= 0 {
        Seq::empty()
    } else if b[n - 1] == 45u8 {
        dash_positions(b, n - 1).push(n - 1)
    } else {
        dash_positions(b, n - 1)
    }
}

pub open spec fn type_code(b: Seq<u8>) -> Option<OptionType> {
    if b == seq![67u8] {
        Some(OptionType::Call)
    } else if b == seq![80u8] {
        Some(OptionType::Put)
    } else {
        None
    }
}

/// The identity written in an instrument name
/// `UNDERLYING-DDMMMYY-STRIKE-C|P`, such as `BTC-10MAR23-22500-C`.
pub open spec fn instrument_spec(b: Seq<u8>) -> Option<InstrumentId> {
    let ds = dash_positions(b, b.len() as int);
    if ds.len() != 3 {
        None
    } else {
        let date = b.subrange(ds[0] + 1, ds[1]);
        let strike = b.subrange(ds[1] + 1, ds[2]);
        let kind = b.subrange(ds[2] + 1, b.len() as int);
        match (date_code_days(date), decimal_parts(strike), type_code(kind)) {
            (Some(d), Some(parts), Some(t)) => match price_units(parts.0, parts.1) {
                Some(k) => Some(InstrumentId { maturity: expiry_of_day(d) as i64, strike: k as i64, option_type: t }),
                None => None,
            },
            _ => None,
        }
    }
}

/// Reads maturity, strike and type out of an instrument name such as
/// `BTC-10MAR23-22500-C`; `None` where the name is malformed.
pub fn parse_instrument(name: &str) -> (r: Option<InstrumentId>)
    ensures
        r == instrument_spec(name.spec_bytes()),
{
    let b: &[u8] = name.as_bytes();
    let mut ds: Vec<usize> = Vec::new();
    let mut i: usize = 0;
    while i < b.len()
        invariant
            i <= b@.len(),
            ds@.len() == dash_positions(b@, i as int).len(),
            forall|k: int| 0 <= k < ds@.len() ==> #[trigger] ds@[k] as int == dash_positions(b@, i as int)[k],
            forall|k: int| 0 <= k < ds@.len() ==> #[trigger] ds@[k] < i,
        decreases b@.len() - i,
    {
        if b[i] == 45u8 {
            ds.push(i);
        }
        i = i + 1;
    }
    let ghost dsp = dash_positions(b@, b@.len() as int);
    if ds.len() != 3 {
        return None;
    }
    proof {
        lemma_dashes_increasing(b@, b@.len() as int, 0);
        lemma_dashes_increasing(b@, b@.len() as int, 1);
    }
    let date = &b[ds[0] + 1..ds[1]];
    let strike_text = &b[ds[1] + 1..ds[2]];
    let kind = &b[ds[2] + 1..b.len()];
    let option_type = if kind.len() == 1 && kind[0] == 67u8 {
        proof { assert(kind@ == seq![67u8]); }
        OptionType::Call
    } else if kind.len() == 1 && kind[0] == 80u8 {
        proof { assert(kind@ == seq![80u8]); }
        OptionType::Put
    } else {
        proof {
            if kind@ == seq![67u8] || kind@ == seq![80u8] {
                assert(kind@.len() == 1);
            }
        }
        return None;
    };
    let days = match date_code_day_number(date) {
        Some(d) => d,
        None => return None,
    };
    let parts = match parse_decimal(strike_text) {
        Some(p) => p,
        None => return None,
    };
    let strike = match decimal_to_price_units(parts.0, parts.1) {
        Some(k) => k,
        None => return None,
    };
    let maturity: i64 = (days as i64 - UNIX_EPOCH_DAY) * SECONDS_PER_DAY + EXPIRY_SECOND_OF_DAY;
    Some(InstrumentId { maturity, strike, option_type })
}

proof fn lemma_dashes_increasing(b: Seq<u8>, n: int, k: int)
    requires
        0 <= n <= b.len(),
        0 <= k < dash_positions(b, n).len() - 1,
    ensures
        dash_positions(b, n)[k] < dash_positions(b, n)[k + 1],
        forall|j: int| 0 <= j < dash_positions(b, n).len() ==> 0 <= #[trigger] dash_positions(b, n)[j] < n,
    decreases n,
{
    lemma_dashes_bounded(b, n);
    if n > 0 {
        lemma_dashes_bounded(b, n - 1);
        let prev = dash_positions(b, n - 1);
        if b[n - 1] == 45u8 {
            if k < prev.len() - 1 {
                lemma_dashes_increasing(b, n - 1, k);
            }
        } else {
            lemma_dashes_increasing(b, n - 1, k);
        }
    }
}

proof fn lemma_dashes_bounded(b: Seq<u8>, n: int)
    requires
        0 <= n <= b.len(),
    ensures
        forall|j: int| 0 <= j < dash_positions(b, n).len() ==> 0 <= #[trigger] dash_positions(b, n)[j] < n,
    decreases n,
{
    if n > 0 {
        lemma_dashes_bounded(b, n - 1);
        let prev = dash_positions(b, n - 1);
        let cur = dash_positions(b, n);
        assert forall|j: int| 0 <= j < cur.len() implies 0 <= #[trigger] cur[j] < n by {
            if j < prev.len() {
                assert(cur[j] == prev[j]);
            }
        }
    }
}

} // verus!
