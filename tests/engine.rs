use backtest::account::{Account, AccountBalance};
use backtest::bar::Tick;
use backtest::engine::Engine;
use backtest::error::EngineError;
use backtest::indicators::{Indicator, IndicatorKind};
use backtest::position::Position;
use backtest::rational::Rational;

fn whole(k: i64) -> Rational {
    Rational::from_integer(k)
}

fn tick(asset: &str, bid: i64, ask: i64) -> Tick {
    Tick { timestamp: 0, asset: asset.to_string(), bid: whole(bid), ask: whole(ask) }
}

fn fill(asset: &str, lots: i64, price: i64) -> Position {
    Position { asset: asset.to_string(), lots, costbasis: whole(price) }
}

#[test]
fn test_basic() {
    assert!(1 == 1);
}

#[test]
fn new_engine_balance_is_ten_thousand() {
    let engine = Engine::new();
    assert_eq!(engine.handle(AccountBalance), whole(10000));
    assert_eq!(engine.account.handle(AccountBalance), whole(10000));
}

#[test]
fn equity_at_construction_is_starting_cash() {
    let engine = Engine::init_engine(vec![tick("EUR", 99, 101)], whole(5000));
    assert_eq!(engine.equity(), Ok(whole(5000)));
}

#[test]
fn fills_average_cost_basis_and_debit_cash() {
    let mut account = Account::new(whole(10000));
    assert_eq!(account.apply_fill(fill("EUR", 2, 10)), Ok(()));
    assert_eq!(account.apply_fill(fill("EUR", 3, 20)), Ok(()));
    let p = account.position(&"EUR".to_string()).unwrap();
    assert_eq!(p.lots, 5);
    assert_eq!(p.costbasis, whole(16));
    assert_eq!(account.cash, whole(9920));
    assert_eq!(account.apply_fill(fill("EUR", -1, 30)), Ok(()));
    let p = account.position(&"EUR".to_string()).unwrap();
    assert_eq!(p.lots, 4);
    assert_eq!(p.costbasis, Rational::new(25, 2));
    assert_eq!(account.cash, whole(9950));
    assert_eq!(account.trades.len(), 3);
}

#[test]
fn fill_to_zero_lots_closes_position() {
    let mut account = Account::new(whole(1000));
    assert_eq!(account.apply_fill(fill("EUR", 3, 10)), Ok(()));
    assert_eq!(account.apply_fill(fill("EUR", -3, 12)), Ok(()));
    assert!(account.position(&"EUR".to_string()).is_none());
    assert_eq!(account.cash, whole(1006));
    assert_eq!(account.trades.len(), 2);
}

#[test]
fn unaffordable_fill_is_refused() {
    let mut account = Account::new(whole(100));
    assert_eq!(account.apply_fill(fill("EUR", 2, 51)), Err(EngineError::InsufficientCash));
    assert_eq!(account.cash, whole(100));
    assert!(account.position(&"EUR".to_string()).is_none());
    assert!(account.trades.is_empty());
}

#[test]
fn overflowing_fill_is_an_arithmetic_fault() {
    let mut account = Account::new(whole(100));
    let big = Position { asset: "EUR".to_string(), lots: 4, costbasis: whole(i64::MAX) };
    assert_eq!(account.apply_fill(big), Err(EngineError::ArithmeticFault));
    assert_eq!(account.cash, whole(100));
    assert!(account.trades.is_empty());
}

#[test]
fn open_then_close_loses_the_spread() {
    let ticks = vec![tick("EUR", 99, 101), tick("EUR", 99, 101), tick("EUR", 99, 101)];
    let mut engine = Engine::init_engine(ticks, whole(10000));
    assert_eq!(engine.place_order("EUR".to_string(), 1), Ok(()));
    assert_eq!(engine.account.orders.len(), 1);
    assert_eq!(engine.step(), Ok(()));
    assert!(engine.account.orders.is_empty());
    let p = engine.account.position(&"EUR".to_string()).unwrap();
    assert_eq!(p.lots, 1);
    assert_eq!(p.costbasis, whole(101));
    assert_eq!(engine.account.cash, whole(9899));
    assert_eq!(engine.place_order("EUR".to_string(), -1), Ok(()));
    assert_eq!(engine.step(), Ok(()));
    assert!(engine.account.position(&"EUR".to_string()).is_none());
    assert_eq!(engine.account.cash, whole(9998));
    assert_eq!(engine.account.trades.len(), 2);
}

#[test]
fn rejected_order_leaves_ledger_unchanged() {
    let mut engine = Engine::init_engine(vec![tick("EUR", 99, 101)], whole(100));
    assert_eq!(engine.place_order("EUR".to_string(), 1), Err(EngineError::InsufficientCash));
    assert_eq!(engine.account.cash, whole(100));
    assert!(engine.account.position(&"EUR".to_string()).is_none());
    assert!(engine.account.trades.is_empty());
    assert!(engine.account.orders.is_empty());
    assert_eq!(engine.step(), Ok(()));
    assert_eq!(engine.account.cash, whole(100));
    assert!(engine.account.trades.is_empty());
}

#[test]
fn sell_order_fills_at_bid() {
    let mut engine = Engine::init_engine(vec![tick("EUR", 99, 101)], whole(100));
    assert_eq!(engine.place_order("EUR".to_string(), -2), Ok(()));
    assert_eq!(engine.account.orders[0].costbasis, Some(whole(99)));
    assert_eq!(engine.step(), Ok(()));
    let p = engine.account.position(&"EUR".to_string()).unwrap();
    assert_eq!(p.lots, -2);
    assert_eq!(engine.account.cash, whole(298));
}

#[test]
fn order_after_last_tick_is_refused() {
    let mut engine = Engine::new();
    assert_eq!(engine.place_order("EUR".to_string(), 1), Err(EngineError::SequenceExhausted));
    assert!(engine.account.orders.is_empty());
}

#[test]
fn step_past_the_end_is_sequence_exhausted() {
    let mut engine = Engine::init_engine(vec![tick("EUR", 1, 3)], whole(10));
    assert_eq!(engine.step(), Ok(()));
    assert_eq!(engine.bars.cursor, 1);
    assert_eq!(engine.step(), Err(EngineError::SequenceExhausted));
    assert_eq!(engine.bars.cursor, 1);
}

#[test]
fn step_records_midpoint() {
    let mut engine = Engine::init_engine(vec![tick("EUR", 1, 2)], whole(10));
    assert_eq!(engine.price_of(&"EUR".to_string()), None);
    assert_eq!(engine.step(), Ok(()));
    assert_eq!(engine.price_of(&"EUR".to_string()), Some(Rational::new(3, 2)));
}

#[test]
fn moving_average_of_two_midpoints() {
    let ticks = vec![tick("EUR", 999, 1001), tick("EUR", 1000, 1002)];
    let mut engine = Engine::init_engine(ticks, whole(10000));
    let ma = Indicator::new("ma".to_string(), IndicatorKind::MovingAverage, "price".to_string(), 2);
    engine.register_indicator(ma);
    assert_eq!(engine.indicator_value(&"ma".to_string()), Ok(None));
    assert_eq!(engine.step(), Ok(()));
    assert_eq!(engine.indicator_value(&"ma".to_string()), Ok(Some(whole(1000))));
    assert_eq!(engine.step(), Ok(()));
    assert_eq!(engine.indicator_value(&"ma".to_string()), Ok(Some(Rational::new(2001, 2))));
}

#[test]
fn moving_average_window_evicts_oldest() {
    let ticks = vec![tick("EUR", 1, 1), tick("EUR", 2, 2), tick("EUR", 6, 6)];
    let mut engine = Engine::init_engine(ticks, whole(10000));
    let ma = Indicator::new("ma".to_string(), IndicatorKind::MovingAverage, "price".to_string(), 2);
    engine.register_indicator(ma);
    for _ in 0..3 {
        assert_eq!(engine.step(), Ok(()));
    }
    assert_eq!(engine.indicator_value(&"ma".to_string()), Ok(Some(whole(4))));
}

#[test]
fn momentum_is_oldest_minus_newest() {
    let ticks = vec![tick("EUR", 10, 10), tick("EUR", 7, 7), tick("EUR", 4, 4)];
    let mut engine = Engine::init_engine(ticks, whole(10000));
    let mo = Indicator::new("mo".to_string(), IndicatorKind::Momentum, "price".to_string(), 3);
    engine.register_indicator(mo);
    assert_eq!(engine.indicator_value(&"mo".to_string()), Ok(None));
    for _ in 0..3 {
        assert_eq!(engine.step(), Ok(()));
    }
    assert_eq!(engine.indicator_value(&"mo".to_string()), Ok(Some(whole(6))));
}

#[test]
fn chained_indicator_sees_previous_step() {
    let ticks = vec![tick("EUR", 2, 2), tick("EUR", 4, 4), tick("EUR", 6, 6)];
    let mut engine = Engine::init_engine(ticks, whole(10000));
    engine.register_indicator(Indicator::new(
        "ma".to_string(),
        IndicatorKind::MovingAverage,
        "price".to_string(),
        1,
    ));
    engine.register_indicator(Indicator::new(
        "lag".to_string(),
        IndicatorKind::MovingAverage,
        "ma".to_string(),
        1,
    ));
    assert_eq!(engine.step(), Ok(()));
    // "ma" had no value before the first step, so "lag" took an absent sample.
    assert_eq!(engine.indicator_value(&"ma".to_string()), Ok(Some(whole(2))));
    assert_eq!(engine.indicator_value(&"lag".to_string()), Ok(None));
    assert_eq!(engine.step(), Ok(()));
    assert_eq!(engine.indicator_value(&"ma".to_string()), Ok(Some(whole(4))));
    assert_eq!(engine.indicator_value(&"lag".to_string()), Ok(Some(whole(2))));
}

#[test]
fn unknown_indicator_input_gives_absent_samples() {
    let mut engine = Engine::init_engine(vec![tick("EUR", 2, 2)], whole(10));
    engine.register_indicator(Indicator::new(
        "x".to_string(),
        IndicatorKind::MovingAverage,
        "nothing".to_string(),
        3,
    ));
    assert_eq!(engine.step(), Ok(()));
    assert_eq!(engine.indicator_value(&"x".to_string()), Ok(None));
    assert_eq!(engine.indicator_value(&"missing".to_string()), Ok(None));
}

#[test]
fn equity_marks_positions_to_midpoints() {
    let ticks = vec![
        tick("EUR", 999, 1001),
        tick("EUR", 1000, 1002),
        tick("EUR", 1001, 1003),
        tick("EUR", 1002, 1004),
    ];
    let mut engine = Engine::init_engine(ticks, whole(10000));
    assert_eq!(engine.account.apply_fill(fill("EUR", 1, 2)), Ok(()));
    // No price recorded yet: the open lot counts for nothing.
    assert_eq!(engine.equity(), Ok(whole(9998)));
    let expected = [10998, 10999, 11000, 11001];
    for e in expected {
        assert_eq!(engine.step(), Ok(()));
        assert_eq!(engine.equity(), Ok(whole(e)));
    }
}

#[test]
fn equity_follows_midpoint_moves() {
    let ticks = vec![tick("EUR", 0, 0), tick("EUR", 1, 1), tick("EUR", 2, 2), tick("EUR", 3, 3)];
    let mut engine = Engine::init_engine(ticks, whole(10000));
    assert_eq!(engine.account.apply_fill(fill("EUR", 1, 2)), Ok(()));
    let expected = [9998, 9999, 10000, 10001];
    for e in expected {
        assert_eq!(engine.step(), Ok(()));
        assert_eq!(engine.equity(), Ok(whole(e)));
    }
}

#[test]
fn rational_new_reduces() {
    assert_eq!(Rational::new(4, -6), Rational { numer: -2, denom: 3 });
    assert_eq!(Rational::new(0, 5), whole(0));
    assert!(whole(3).gt(&Rational::new(5, 2)));
    assert!(!Rational::new(5, 2).gt(&whole(3)));
}

#[test]
fn overflowing_settlement_keeps_orders_in_flight() {
    let mut engine = Engine::init_engine(vec![tick("EUR", 1, 1)], whole(10));
    let huge = Position { asset: "EUR".to_string(), lots: i64::MAX, costbasis: whole(0) };
    assert_eq!(engine.account.apply_fill(huge), Ok(()));
    assert_eq!(engine.place_order("EUR".to_string(), 1), Ok(()));
    assert_eq!(engine.step(), Err(EngineError::ArithmeticFault));
    assert_eq!(engine.bars.cursor, 0);
    assert_eq!(engine.account.orders.len(), 1);
    assert_eq!(engine.account.cash, whole(10));
    assert_eq!(engine.price_of(&"EUR".to_string()), Some(whole(1)));
}
