use paper_trader::model::{OrderSide, RawParameters, RiskParameters, StrategyParameters, StrategyType};
use paper_trader::model::{Strategy, StrategyStatus};
use paper_trader::signals::{decide, detect_crossover, detect_rsi_signal, evaluate_signal, plan_order};

#[test]
fn crossover_fires_once_at_the_crossing_step() {
    let fast = [1i128, 2, 3, 4];
    let slow = [3i128, 3, 3, 3];
    let mut fired = Vec::new();
    for end in 2..=fast.len() {
        fired.push(detect_crossover(&fast[..end], &slow[..end]));
    }
    assert_eq!(fired, vec![None, None, Some(OrderSide::Buy)]);
}

#[test]
fn crossover_below_sells_and_short_series_is_silent() {
    assert_eq!(detect_crossover(&[5, 2], &[3, 3]), Some(OrderSide::Sell));
    assert_eq!(detect_crossover(&[3, 3], &[3, 3]), None);
    assert_eq!(detect_crossover(&[5], &[3]), None);
}

#[test]
fn rsi_leaving_zones() {
    assert_eq!(detect_rsi_signal(&[25, 30], 30, 70), Some(OrderSide::Buy));
    assert_eq!(detect_rsi_signal(&[75, 70], 30, 70), Some(OrderSide::Sell));
    assert_eq!(detect_rsi_signal(&[30, 40], 30, 70), None);
    assert_eq!(detect_rsi_signal(&[20], 30, 70), None);
}

#[test]
fn parameters_take_defaults() {
    let p = StrategyParameters::from_raw(&RawParameters { fast_ma_period: Some(5), ..Default::default() });
    assert_eq!(p.fast_ma_period, 5);
    assert_eq!(p.slow_ma_period, 21);
    assert_eq!((p.rsi_period, p.oversold_threshold, p.overbought_threshold), (14, 30, 70));
    assert_eq!((p.fast_period, p.slow_period, p.signal_period), (12, 26, 9));
}

#[test]
fn moving_average_strategy_buys_on_cross() {
    let params = StrategyParameters::from_raw(&RawParameters {
        fast_ma_period: Some(1),
        slow_ma_period: Some(3),
        ..Default::default()
    });
    // fast = prices; slow(3) = 3, 3, 3 over the last steps; fast goes 3 -> 6
    let prices = [3, 3, 3, 3, 6];
    assert_eq!(evaluate_signal(StrategyType::MovingAverageCrossover, &params, &prices), Some(OrderSide::Buy));
    assert_eq!(evaluate_signal(StrategyType::MovingAverageCrossover, &params, &[3, 3]), None);
}

#[test]
fn order_plan_sizes_by_risk() {
    let risk = RiskParameters {
        max_position_size: 1_000,
        max_total_positions: 1,
        stop_loss_percentage: 500,
        take_profit_percentage: 1_000,
        max_daily_loss: 0,
        trailing_stop_enabled: false,
        trailing_stop_percentage: 0,
    };
    let plan = plan_order(&risk, OrderSide::Buy, 300).unwrap();
    assert_eq!(plan.quantity, 3);
    assert_eq!(plan.stop_loss_price, Some(285));
    assert_eq!(plan.take_profit_price, Some(330));
    let plan = plan_order(&risk, OrderSide::Sell, 300).unwrap();
    assert_eq!(plan.stop_loss_price, None);
    assert!(plan_order(&risk, OrderSide::Buy, 0).is_none());
    assert!(plan_order(&risk, OrderSide::Buy, 1_001).is_none());
}

#[test]
fn decision_carries_protective_levels() {
    let params = StrategyParameters::from_raw(&RawParameters {
        fast_ma_period: Some(1),
        slow_ma_period: Some(3),
        ..Default::default()
    });
    let strategy = Strategy {
        id: 1,
        user_id: "64b7f0c2a1b2c3d4e5f60718".to_string(),
        name: "x".to_string(),
        description: String::new(),
        strategy_type: StrategyType::MovingAverageCrossover,
        status: StrategyStatus::Active,
        symbols: vec!["BTC".to_string()],
        parameters: params,
        risk_parameters: RiskParameters {
            max_position_size: 1_000,
            max_total_positions: 1,
            stop_loss_percentage: 500,
            take_profit_percentage: 1_000,
            max_daily_loss: 0,
            trailing_stop_enabled: false,
            trailing_stop_percentage: 0,
        },
        created_at: 0,
        updated_at: 0,
        last_executed_at: None,
    };
    let plan = decide(&strategy, &[3, 3, 3, 3, 6], 200).unwrap();
    assert_eq!(plan.side, OrderSide::Buy);
    assert_eq!(plan.quantity, 5);
    assert_eq!((plan.stop_loss_price, plan.take_profit_price), (Some(190), Some(220)));
    assert!(decide(&strategy, &[3, 3, 3, 3, 3], 200).is_none());
}
