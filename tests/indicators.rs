use paper_trader::indicators::{MACDIndicator, MovingAverageIndicator, RSIIndicator};

#[test]
fn sma_of_short_series_is_empty() {
    let ma = MovingAverageIndicator::new();
    assert!(ma.calculate_sma(&[1, 2], 3).is_empty());
    assert!(ma.calculate_ema(&[1, 2], 3).is_empty());
    assert!(RSIIndicator::new().calculate(&[1, 2], 3).is_empty());
}

#[test]
fn sma_windows() {
    let ma = MovingAverageIndicator::new();
    assert_eq!(ma.calculate_sma(&[1, 2, 3, 4, 5], 3), vec![2, 3, 4]);
    assert_eq!(ma.calculate_sma(&[10, 20, 30], 3), vec![20]);
    assert_eq!(ma.calculate_sma(&[1, 2, 4], 2), vec![1, 3]);
}

#[test]
fn sma_period_zero_is_empty() {
    let ma = MovingAverageIndicator::new();
    assert!(ma.calculate_sma(&[1, 2, 3], 0).is_empty());
    assert!(ma.calculate_ema(&[1, 2, 3], 0).is_empty());
}

#[test]
fn ema_seeded_with_sma_then_smoothed() {
    let ma = MovingAverageIndicator::new();
    // seed (10 + 20 + 30) / 3 = 20; multiplier 2 / 4: 20 + (40 - 20) / 2 = 30; 30 - (30 - 10) / 2 = 20
    assert_eq!(ma.calculate_ema(&[10, 20, 30, 40, 10], 3), vec![20, 30, 20]);
}

#[test]
fn ema_first_value_equals_sma_of_first_window() {
    let ma = MovingAverageIndicator::new();
    let prices = [7, 3, 9, 12, 5, 8];
    let ema = ma.calculate_ema(&prices, 4);
    let sma = ma.calculate_sma(&prices[0..4], 4);
    assert_eq!(ema[0], sma[0]);
}

#[test]
fn ema_rounds_towards_previous_value() {
    let ma = MovingAverageIndicator::new();
    // seed 10; step (11 - 10) * 2 / 3 = 0; step (0 - 10) * 2 / 3 = 6 downwards
    assert_eq!(ma.calculate_ema(&[10, 10, 11, 0], 2), vec![10, 10, 4]);
}

#[test]
fn rsi_of_steady_rise_is_high() {
    let rsi = RSIIndicator::new().calculate(&[1, 2, 3, 4, 5], 2);
    // average gain 1, loss 0 (taken as 1e-5): 100 - 100 / (1 + 100000) rounds down to 99
    assert_eq!(rsi, vec![99, 99, 99]);
}

#[test]
fn rsi_values() {
    let rsi = RSIIndicator::new().calculate(&[100, 110, 105, 115, 100], 2);
    // gains 10 0 10 0, losses 0 5 0 15
    // seed: gain 5, loss 2 -> 100*5/7 = 71
    // next: gain (5 + 10)/2 = 7, loss (2 + 0)/2 = 1 -> 700/8 = 87
    // next: gain (7 + 0)/2 = 3, loss (1 + 15)/2 = 8 -> 300/11 = 27
    assert_eq!(rsi, vec![71, 87, 27]);
}

#[test]
fn rsi_stays_within_bounds() {
    let prices = [5, 1, 9, 2, 8, 3, 7, 4, 6, 5, 100, 0, 50];
    for period in 1..6 {
        for v in RSIIndicator::new().calculate(&prices, period) {
            assert!(v <= 100);
        }
    }
    assert_eq!(RSIIndicator::new().calculate(&[9, 8, 7, 6], 2), vec![0, 0]);
}

#[test]
fn rsi_needs_more_than_period_prices() {
    assert!(RSIIndicator::new().calculate(&[1, 2, 3], 3).is_empty());
    assert_eq!(RSIIndicator::new().calculate(&[1, 2, 3, 4], 3).len(), 1);
}

#[test]
fn macd_lines_align_at_the_end() {
    let prices = [10, 12, 14, 16, 18, 20];
    let (line, signal, histogram) = MACDIndicator::new().calculate(&prices, 2, 3, 2);
    // fast EMA(2): 11, 13 (11 + 3*2/3 = 13), 15, 17, 19
    // slow EMA(3): 12, 14 (12 + 4*2/4), 16, 18
    assert_eq!(line, vec![1, 1, 1, 1]);
    assert_eq!(signal, vec![1, 1, 1]);
    assert_eq!(histogram, vec![0, 0, 0]);
}

#[test]
fn macd_empty_when_series_too_short() {
    let (line, signal, histogram) = MACDIndicator::new().calculate(&[1, 2], 2, 3, 2);
    assert!(line.is_empty() && signal.is_empty() && histogram.is_empty());
}

#[test]
fn macd_negative_seed_rounds_down() {
    // fast EMA(1) = prices, slow EMA(2): 2, 1; line 1 - 2 = -1, 0 - 1 = -1, ...
    let (line, signal, _) = MACDIndicator::new().calculate(&[3, 1, 0], 1, 2, 2);
    assert_eq!(line, vec![-1, -1]);
    assert_eq!(signal, vec![-1]);
    let (line, signal, _) = MACDIndicator::new().calculate(&[4, 1, 2, 0], 1, 2, 2);
    // slow: 2, 2 - ... ; just check the seed of the signal is the floor of the mean
    let mean = (line[0] + line[1]) as f64 / 2.0;
    assert_eq!(signal[0], mean.floor() as i128);
}
