use quantabeta::backtest::{sharpe_undefined, DeterministicBacktest, LogicalClock, Signal, Tick};
use quantabeta::rational::Rat;
use quantabeta::bigint::Int;

fn ticks_from(prices: &[i64]) -> Vec<Tick> {
    prices
        .iter()
        .enumerate()
        .map(|(i, &p)| Tick { price: Int::from_i64(p), volume: Int::from_i64(1000), clock: i as u64 })
        .collect()
}

#[test]
fn test_backtest_deterministic() {
    let ticks: Vec<Tick> = (0..5)
        .map(|i| Tick { price: Int::from_i64(100 + i), volume: Int::from_i64(1000), clock: i as u64 })
        .collect();
    let signals: Vec<Signal> = vec![1, 1, -1, 0, 1];

    let mut bt1 = DeterministicBacktest::new(1);
    let mut bt2 = DeterministicBacktest::new(1);
    let r1 = bt1.run(&ticks, &signals);
    let r2 = bt2.run(&ticks, &signals);

    assert_eq!(r1.pnl, r2.pnl);
    assert_eq!(r1.audit_hash, r2.audit_hash);
}

#[test]
fn backtest_exact_values() {
    let ticks = ticks_from(&[100, 101, 102, 103, 104]);
    let signals: Vec<Signal> = vec![1, 1, -1, 0, 1];
    let mut bt = DeterministicBacktest::new(1);
    let r = bt.run(&ticks, &signals);
    assert_eq!(r.pnl, "1");
    assert_eq!(r.max_drawdown, "1");
    assert_eq!(r.total_trades, 3);
    assert_eq!(r.sharpe_low, "125/354");
    assert_eq!(r.sharpe_high, "500/1413");
    // trade returns 1, 1, -1: mean 1/3, variance 8/9, Sharpe ratio sqrt(1/8);
    // low^2 * var <= mean^2 <= high^2 * var, checked over integers
    assert!(125i128 * 125 * 8 * 9 <= 354i128 * 354 * 9);
    assert!(1413i128 * 1413 * 9 <= 500i128 * 500 * 8 * 9);
    assert_eq!(r.audit_hash, "5ce90c781aa39664c996addf8caa88f1b1de19286e587bd25d35ea7afdc50708");
    // one clock tick per step, flat steps included
    assert_eq!(bt.clock.tick, 4);
}

#[test]
fn backtest_fee_rounds_toward_zero_on_negative_prices() {
    let ticks = ticks_from(&[-20000, 15000, 30000]);
    let signals: Vec<Signal> = vec![-1, 1, 0];
    let mut bt = DeterministicBacktest::new(3);
    let r = bt.run(&ticks, &signals);
    assert_eq!(r.pnl, "-19998");
    assert_eq!(r.max_drawdown, "34994");
    assert_eq!(r.total_trades, 2);
    assert_eq!(r.sharpe_low, "-3333000/8331667");
    assert_eq!(r.sharpe_high, "-9999000/24994999");
    assert_eq!(r.audit_hash, "93ac6f6552e07cfb2ea012a1b1ded2894ded35467444b1fcd2c281cbb988310b");
}

#[test]
fn backtest_without_trades_is_flat() {
    let ticks = ticks_from(&[10, 20, 30]);
    let signals: Vec<Signal> = vec![0, 0, 0];
    let mut bt = DeterministicBacktest::new(5);
    let r = bt.run(&ticks, &signals);
    assert_eq!(r.pnl, "0");
    assert_eq!(r.sharpe_low, "0");
    assert_eq!(r.sharpe_high, "0");
    assert_eq!(r.total_trades, 0);
    assert_eq!(bt.clock.tick, 2);
}

#[test]
fn backtest_on_no_ticks() {
    let mut bt = DeterministicBacktest::new(5);
    let r = bt.run(&[], &[]);
    assert_eq!(r.pnl, "0");
    assert_eq!(r.max_drawdown, "0");
    assert_eq!(bt.clock.tick, 0);
}

#[test]
fn clock_advances_by_one() {
    let mut c = LogicalClock::default();
    c.advance();
    c.advance();
    assert_eq!(c.tick, 2);
}

#[test]
fn checked_run_agrees_with_run_when_defined() {
    let ticks = ticks_from(&[100, 101, 102, 103, 104]);
    let signals: Vec<Signal> = vec![1, 1, -1, 0, 1];
    let mut bt = DeterministicBacktest::new(1);
    let r = bt.run_checked(&ticks, &signals).expect("the interval is defined here");
    assert_eq!(r.pnl, "1");
    assert_eq!(r.sharpe_low, "125/354");
    assert_eq!(r.sharpe_high, "500/1413");
    assert_eq!(r.audit_hash, "5ce90c781aa39664c996addf8caa88f1b1de19286e587bd25d35ea7afdc50708");
    assert_eq!(bt.clock.tick, 4);
}

#[test]
fn sharpe_is_undefined_exactly_for_variance_at_most_one_millionth() {
    // variances 1/(4 * 10^6) and 1/10^6: the deviation rounds up to 1/1000
    assert!(sharpe_undefined(&[Rat::from_i64(0), Rat::from_pair(1, 1000)]));
    assert!(sharpe_undefined(&[Rat::from_i64(0), Rat::from_pair(2, 1000)]));
    // variance 9/(4 * 10^6): deviation 3/2000 rounds up to 2/1000, defined
    assert!(!sharpe_undefined(&[Rat::from_i64(0), Rat::from_pair(3, 1000)]));
    // ten zeros and one 11/100: variance 1/1000, defined
    let mut rs: Vec<Rat> = vec![Rat::from_i64(0); 10];
    rs.push(Rat::from_pair(11, 100));
    assert!(!sharpe_undefined(&rs));
    // no returns, or no spread: defined (the interval is [0, 0])
    assert!(!sharpe_undefined(&[]));
    assert!(!sharpe_undefined(&[Rat::from_i64(3), Rat::from_i64(3)]));
}
