use option_board::{OptionBoard, OptionChain, OptionTick, OptionType, OptionValue, SelectionError};

const DAY: i64 = 86_400;
const T0: i64 = 1_700_000_000;

fn tick(strike: i64, spot: i64, maturity: i64, option_type: OptionType) -> OptionTick {
    OptionTick {
        strike,
        maturity,
        option_type,
        asset_price: spot,
        option_value: OptionValue::ImpliedVolatility(strike),
        open_interest: 0,
    }
}

fn chain_of(ticks: &[OptionTick]) -> OptionChain {
    let mut board = OptionBoard::new();
    for t in ticks {
        board.upsert(*t);
    }
    board.snapshot()
}

#[test]
fn otm_keeps_calls_above_and_puts_below_spot() {
    let c90 = tick(90, 100, T0, OptionType::Call);
    let c110 = tick(110, 100, T0, OptionType::Call);
    let p90 = tick(90, 100, T0, OptionType::Put);
    let p110 = tick(110, 100, T0, OptionType::Put);
    let atm_call = tick(100, 100, T0, OptionType::Call);
    let chain = chain_of(&[c90, c110, p90, p110, atm_call]);
    let otm = chain.otm().ticks().clone();
    assert_eq!(otm.len(), 2);
    assert!(otm.contains(&c110));
    assert!(otm.contains(&p90));
}

#[test]
fn atm_prefers_lower_strike_on_tie() {
    let chain = chain_of(&[tick(105, 100, T0, OptionType::Call), tick(95, 100, T0, OptionType::Call)]);
    assert_eq!(chain.atm().unwrap().strike, 95);
}

#[test]
fn atm_picks_nearest_strike() {
    let chain = chain_of(&[
        tick(80, 100, T0, OptionType::Put),
        tick(103, 100, T0, OptionType::Call),
        tick(96, 100, T0, OptionType::Put),
    ]);
    assert_eq!(chain.atm().unwrap().strike, 103);
}

#[test]
fn atm_of_empty_chain_fails() {
    let chain = chain_of(&[]);
    assert_eq!(chain.atm(), Err(SelectionError::EmptyChain));
}

#[test]
fn maturities_come_nearest_first() {
    let a = tick(90, 100, T0 + 30 * DAY, OptionType::Call);
    let b = tick(95, 100, T0 + 7 * DAY, OptionType::Call);
    let b2 = tick(99, 100, T0 + 7 * DAY, OptionType::Put);
    let c = tick(80, 100, T0 + 60 * DAY, OptionType::Put);
    let schedule = chain_of(&[a, b, c, b2]).sort_by_maturity();
    assert_eq!(schedule.maturity_list().clone(), vec![T0 + 7 * DAY, T0 + 30 * DAY, T0 + 60 * DAY]);
    let front = schedule.get(0).unwrap().ticks().clone();
    assert_eq!(front, vec![b, b2]);
    assert_eq!(schedule.get(2).unwrap().ticks().clone(), vec![c]);
    assert!(matches!(schedule.get(3), Err(SelectionError::OutOfRange)));
}

#[test]
fn maturity_bucket_of_empty_chain_is_out_of_range() {
    let schedule = chain_of(&[]).sort_by_maturity();
    assert!(matches!(schedule.get(0), Err(SelectionError::OutOfRange)));
}

#[test]
fn delta_exposure_weights_by_open_interest() {
    let mut a = tick(90, 100, T0, OptionType::Call);
    a.open_interest = 100;
    let mut b = tick(110, 100, T0, OptionType::Put);
    b.open_interest = 200;
    let chain = chain_of(&[a, b]);
    // deltas 0.5 and -0.3 on a scale of 10^9
    let deltas = vec![500_000_000i64, -300_000_000];
    assert_eq!(chain.delta_exposure(&deltas), Some(-10_000_000_000));
}

#[test]
fn gamma_exposure_counts_zero_open_interest_as_zero() {
    let mut a = tick(90, 100, T0, OptionType::Call);
    a.open_interest = 3;
    let b = tick(110, 100, T0, OptionType::Put);
    let chain = chain_of(&[a, b]);
    assert_eq!(chain.gamma_exposure(&vec![7, 1_000]), Some(21));
}

#[test]
fn exposure_of_empty_chain_is_unavailable() {
    let chain = chain_of(&[]);
    assert_eq!(chain.delta_exposure(&vec![]), None);
    assert_eq!(chain.gamma_exposure(&vec![]), None);
}

#[test]
fn exposure_that_leaves_128_bits_is_unavailable() {
    let mut a = tick(90, 100, T0, OptionType::Call);
    a.open_interest = u64::MAX;
    let mut b = tick(95, 100, T0, OptionType::Call);
    b.open_interest = u64::MAX;
    let mut c = tick(99, 100, T0, OptionType::Call);
    c.open_interest = u64::MAX;
    let chain = chain_of(&[a, b, c]);
    assert_eq!(chain.delta_exposure(&vec![i64::MAX, i64::MAX, i64::MAX]), None);
    let one = i64::MAX as i128 * u64::MAX as i128;
    let two = chain_of(&[a]).delta_exposure(&vec![i64::MAX]);
    assert_eq!(two, Some(one));
}

#[test]
fn map_to_vec_skips_undefined_metrics() {
    let mut priced = tick(95, 100, T0, OptionType::Put);
    priced.option_value = OptionValue::Price(12);
    let chain = chain_of(&[tick(110, 100, T0, OptionType::Call), priced, tick(90, 100, T0, OptionType::Put)]);
    let (strikes, values) = chain.map_to_vec(&chain.ivs());
    assert_eq!(strikes, vec![90, 110]);
    assert_eq!(values, vec![90, 110]);
}

#[test]
fn map_to_vec_carries_any_metric() {
    let chain = chain_of(&[tick(110, 100, T0, OptionType::Call), tick(90, 100, T0, OptionType::Put)]);
    let (strikes, values) = chain.map_to_vec(&vec![Some(0.25f64), None]);
    assert_eq!(strikes, vec![90]);
    assert_eq!(values, vec![0.25]);
}
