use option_board::{mid_iv, OptionBoard, OptionTick, OptionType, OptionValue};

fn tick(strike: i64, maturity: i64, option_type: OptionType, iv: i64) -> OptionTick {
    OptionTick {
        strike,
        maturity,
        option_type,
        asset_price: 1_000_000,
        option_value: OptionValue::ImpliedVolatility(iv),
        open_interest: 10,
    }
}

#[test]
fn upsert_replaces_same_contract() {
    let mut board = OptionBoard::new();
    board.upsert(tick(900_000, 100, OptionType::Call, 1));
    board.upsert(tick(900_000, 100, OptionType::Call, 2));
    board.upsert(tick(900_000, 100, OptionType::Call, 3));
    assert_eq!(board.len(), 1);
    let chain = board.snapshot();
    assert_eq!(chain.ticks().clone(), vec![tick(900_000, 100, OptionType::Call, 3)]);
}

#[test]
fn upsert_keeps_distinct_contracts_apart() {
    let mut board = OptionBoard::new();
    board.upsert(tick(900_000, 100, OptionType::Call, 1));
    board.upsert(tick(900_000, 100, OptionType::Put, 2));
    board.upsert(tick(900_000, 200, OptionType::Call, 3));
    board.upsert(tick(800_000, 100, OptionType::Call, 4));
    board.upsert(tick(900_000, 100, OptionType::Put, 5));
    assert_eq!(board.len(), 4);
    let ticks = board.snapshot().ticks().clone();
    assert_eq!(ticks[0], tick(800_000, 100, OptionType::Call, 4));
    assert!(ticks.contains(&tick(900_000, 100, OptionType::Put, 5)));
    assert!(!ticks.contains(&tick(900_000, 100, OptionType::Put, 2)));
    for w in ticks.windows(2) {
        assert!(w[0].strike <= w[1].strike);
    }
}

#[test]
fn new_board_is_empty() {
    let board = OptionBoard::new();
    assert_eq!(board.len(), 0);
    assert_eq!(board.snapshot().len(), 0);
}

#[test]
fn repeated_snapshots_are_equal() {
    let mut board = OptionBoard::new();
    board.upsert(tick(900_000, 100, OptionType::Call, 1));
    board.upsert(tick(1_100_000, 100, OptionType::Put, 2));
    let a = board.snapshot();
    let b = board.snapshot();
    assert_eq!(a.ticks().clone(), b.ticks().clone());
}

#[test]
fn snapshot_is_detached_from_later_upserts() {
    let mut board = OptionBoard::new();
    board.upsert(tick(900_000, 100, OptionType::Call, 1));
    let before = board.snapshot();
    board.upsert(tick(900_000, 100, OptionType::Call, 2));
    assert_eq!(before.ticks().clone(), vec![tick(900_000, 100, OptionType::Call, 1)]);
}

#[test]
fn snapshots_hold_only_whole_upserted_ticks() {
    let mut board = OptionBoard::new();
    let mut sent: Vec<OptionTick> = Vec::new();
    for k in 0..20i64 {
        let t = tick(500_000 + 10_000 * (k % 7), 100 + k % 3, OptionType::Put, k);
        board.upsert(t);
        sent.push(t);
        for s in board.snapshot().ticks() {
            assert!(sent.contains(s));
        }
    }
}

#[test]
fn ingest_takes_a_quoted_record() {
    let mut board = OptionBoard::new();
    assert!(board.ingest("BTC-10MAR23-22500-C", 180_000, 200_000, 224_000_000, 42));
    let ticks = board.snapshot().ticks().clone();
    assert_eq!(ticks.len(), 1);
    assert_eq!(ticks[0].strike, 225_000_000);
    assert_eq!(ticks[0].maturity, 1_678_435_200);
    assert_eq!(ticks[0].option_type, OptionType::Call);
    assert_eq!(ticks[0].option_value, OptionValue::ImpliedVolatility(1_900_000));
    assert_eq!(ticks[0].open_interest, 42);
}

#[test]
fn ingest_drops_unquoted_and_malformed_records() {
    let mut board = OptionBoard::new();
    assert!(!board.ingest("BTC-10MAR23-22500-C", 0, 0, 224_000_000, 1));
    assert!(!board.ingest("BTC-10MAR23-22500", 100, 100, 224_000_000, 1));
    assert!(!board.ingest("BTC-99MAR23-22500-P", 100, 100, 224_000_000, 1));
    assert!(!board.ingest("BTC-10MAR23-abc-P", 100, 100, 224_000_000, 1));
    assert_eq!(board.len(), 0);
}

#[test]
fn mid_iv_drops_tick_without_quotes() {
    assert_eq!(mid_iv(0, 0), None);
    assert_eq!(mid_iv(-5, 0), None);
}

#[test]
fn mid_iv_uses_the_quoted_side() {
    // ask 0.20 % is 0.0020 as a fraction
    assert_eq!(mid_iv(0, 200_000), Some(2_000_000));
    assert_eq!(mid_iv(200_000, 0), Some(2_000_000));
}

#[test]
fn mid_iv_averages_both_sides() {
    // bid 0.18 %, ask 0.20 % give 0.0019
    assert_eq!(mid_iv(180_000, 200_000), Some(1_900_000));
    assert_eq!(mid_iv(1, 2), Some(15));
    assert_eq!(mid_iv(i32::MAX, i32::MAX), Some(2 * 5 * i32::MAX as i64));
}
