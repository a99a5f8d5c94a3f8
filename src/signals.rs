//! Turning indicator values into trading decisions, and sizing the orders
//! that follow from them.

use vstd::prelude::*;

use crate::indicators::{
    macd_line, macd_signal, prices_as_ints, rsi, signed_as_ints, sma, widen, MACDIndicator,
    MovingAverageIndicator, RSIIndicator,
};
use crate::model::{OrderSide, RiskParameters, Strategy, StrategyParameters, StrategyType};

verus! {

/// The signal of two series between two consecutive samples: a crossing
/// from at-or-below to above buys, one from at-or-above to below sells.
pub open spec fn crossover(prev_a: int, prev_b: int, cur_a: int, cur_b: int) -> Option<OrderSide> {
    if prev_a <= prev_b && cur_a > cur_b {
        Some(OrderSide::Buy)
    } else if prev_a >= prev_b && cur_a < cur_b {
        Some(OrderSide::Sell)
    } else {
        None
    }
}

/// The crossover between the last two values of each series; none while
/// either has fewer than two.
pub open spec fn latest_crossover(a: Seq<int>, b: Seq<int>) -> Option<OrderSide> {
    if a.len() < 2 || b.len() < 2 {
        None
    } else {
        crossover(a[a.len() - 2], b[b.len() - 2], a[a.len() - 1], b[b.len() - 1])
    }
}

/// RSI leaving the oversold zone buys; leaving the overbought zone sells.
pub open spec fn rsi_crossing(prev: int, cur: int, oversold: int, overbought: int) -> Option<OrderSide> {
    if prev < oversold && cur >= oversold {
        Some(OrderSide::Buy)
    } else if prev > overbought && cur <= overbought {
        Some(OrderSide::Sell)
    } else {
        None
    }
}

pub open spec fn latest_rsi_signal(values: Seq<int>, oversold: int, overbought: int) -> Option<
    OrderSide,
> {
    if values.len() < 2 {
        None
    } else {
        rsi_crossing(values[values.len() - 2], values[values.len() - 1], oversold, overbought)
    }
}

/// What a strategy of `kind` decides on a price history, oldest first.
pub open spec fn strategy_signal(
    kind: StrategyType,
    params: StrategyParameters,
    prices: Seq<int>,
) -> Option<OrderSide> {
    match kind {
        StrategyType::MovingAverageCrossover => latest_crossover(
            sma(prices, params.fast_ma_period as nat),
            sma(prices, params.slow_ma_period as nat),
        ),
        StrategyType::RSIStrategy => latest_rsi_signal(
            rsi(prices, params.rsi_period as nat),
            params.oversold_threshold as int,
            params.overbought_threshold as int,
        ),
        StrategyType::MACDStrategy => latest_crossover(
            macd_line(prices, params.fast_period as nat, params.slow_period as nat),
            macd_signal(
                prices,
                params.fast_period as nat,
                params.slow_period as nat,
                params.signal_period as nat,
            ),
        ),
    }
}

/// The crossover signal at the end of two series.
pub fn detect_crossover(fast: &[i128], slow: &[i128]) -> (r: Option<OrderSide>)
    ensures
        r == latest_crossover(signed_as_ints(fast@), signed_as_ints(slow@)),
{
    if fast.len() < 2 || slow.len() < 2 {
        return None;
    }
    let prev_fast = fast[fast.len() - 2];
    let cur_fast = fast[fast.len() - 1];
    let prev_slow = slow[slow.len() - 2];
    let cur_slow = slow[slow.len() - 1];
    if prev_fast <= prev_slow && cur_fast > cur_slow {
        Some(OrderSide::Buy)
    } else if prev_fast >= prev_slow && cur_fast < cur_slow {
        Some(OrderSide::Sell)
    } else {
        None
    }
}

/// The RSI signal at the end of a series of RSI values.
pub fn detect_rsi_signal(values: &[u64], oversold: u64, overbought: u64) -> (r: Option<OrderSide>)
    ensures
        r == latest_rsi_signal(prices_as_ints(values@), oversold as int, overbought as int),
{
    if values.len() < 2 {
        return None;
    }
    let prev = values[values.len() - 2];
    let cur = values[values.len() - 1];
    if prev < oversold && cur >= oversold {
        Some(OrderSide::Buy)
    } else if prev > overbought && cur <= overbought {
        Some(OrderSide::Sell)
    } else {
        None
    }
}

/// Runs the indicator of `kind` over `prices` and reads its signal.
pub fn evaluate_signal(kind: StrategyType, params: &StrategyParameters, prices: &[u64]) -> (r: Option<
    OrderSide,
>)
    ensures
        r == strategy_signal(kind, *params, prices_as_ints(prices@)),
{
    match kind {
        StrategyType::MovingAverageCrossover => {
            let ma = MovingAverageIndicator::new();
            let fast = ma.calculate_sma(prices, params.fast_ma_period);
            let slow = ma.calculate_sma(prices, params.slow_ma_period);
            let fast_wide = widen(fast.as_slice());
            let slow_wide = widen(slow.as_slice());
            detect_crossover(fast_wide.as_slice(), slow_wide.as_slice())
        },
        StrategyType::RSIStrategy => {
            let values = RSIIndicator::new().calculate(prices, params.rsi_period);
            detect_rsi_signal(values.as_slice(), params.oversold_threshold, params.overbought_threshold)
        },
        StrategyType::MACDStrategy => {
            let (line, signal, _histogram) = MACDIndicator::new().calculate(
                prices,
                params.fast_period,
                params.slow_period,
                params.signal_period,
            );
            detect_crossover(line.as_slice(), signal.as_slice())
        },
    }
}

/// A simulated market order to place, with the protective levels that the
/// strategy's risk parameters suggest. The levels are advice only: no
/// conditional order is placed for them.
#[derive(Debug)]
pub struct OrderPlan {
    pub side: OrderSide,
    pub quantity: u64,
    pub stop_loss_price: Option<u128>,
    pub take_profit_price: Option<u128>,
}

/// `price` lowered by `percentage` hundredths of a percent, never below zero.
pub open spec fn stop_loss_level(price: int, percentage: int) -> int {
    if percentage >= 10000 {
        0
    } else {
        price * (10000 - percentage) / 10000
    }
}

/// `price` raised by `percentage` hundredths of a percent.
pub open spec fn take_profit_level(price: int, percentage: int) -> int {
    price * (10000 + percentage) / 10000
}

/// `plan` sells or buys as many units as `risk`'s largest position size
/// buys at `price`, with the stop-loss and take-profit levels for a buy.
pub open spec fn planned(risk: RiskParameters, side: OrderSide, price: u64, plan: OrderPlan) -> bool {
    &&& plan.side == side
    &&& plan.quantity == risk.max_position_size as int / price as int
    &&& side == OrderSide::Buy ==> plan.stop_loss_price == Some(
        stop_loss_level(price as int, risk.stop_loss_percentage as int) as u128,
    ) && plan.take_profit_price == Some(
        take_profit_level(price as int, risk.take_profit_percentage as int) as u128,
    )
    &&& side == OrderSide::Sell ==> plan.stop_loss_price is None && plan.take_profit_price is None
}

/// The order that a signal leads to at `price`: as many units as the
/// largest position size buys, with stop-loss and take-profit levels for a
/// buy. None when the price is zero or not even one unit is affordable.
pub fn plan_order(risk: &RiskParameters, side: OrderSide, price: u64) -> (r: Option<OrderPlan>)
    ensures
        price == 0 || risk.max_position_size < price ==> r is None,
        price > 0 && risk.max_position_size >= price ==> (r matches Some(plan) && planned(
            *risk,
            side,
            price,
            plan,
        )),
{
    if price == 0 || risk.max_position_size < price {
        return None;
    }
    let quantity = risk.max_position_size / price;
    match side {
        OrderSide::Buy => {
            let stop = if risk.stop_loss_percentage >= 10000 {
                0
            } else {
                proof {
                    assert(price * (10000 - risk.stop_loss_percentage) <= 0xffff_ffff_ffff_ffff * 10000)
                        by (nonlinear_arith)
                        requires
                            price <= 0xffff_ffff_ffff_ffff,
                            0 <= 10000 - risk.stop_loss_percentage <= 10000,
                    ;
                }
                price as u128 * (10000 - risk.stop_loss_percentage) as u128 / 10000
            };
            proof {
                assert(price * (10000 + risk.take_profit_percentage) <= 0xffff_ffff_ffff_ffff
                    * 0x1_0000_2710int) by (nonlinear_arith)
                    requires
                        price <= 0xffff_ffff_ffff_ffff,
                        0 <= 10000 + risk.take_profit_percentage <= 0x1_0000_2710int,
                ;
            }
            let take = price as u128 * (10000 + risk.take_profit_percentage as u128) / 10000;
            Some(
                OrderPlan {
                    side,
                    quantity,
                    stop_loss_price: Some(stop),
                    take_profit_price: Some(take),
                },
            )
        },
        OrderSide::Sell => Some(
            OrderPlan { side, quantity, stop_loss_price: None, take_profit_price: None },
        ),
    }
}

/// Evaluates `strategy` on a price history and, on a signal, plans the
/// order to place at `current_price`.
pub fn decide(strategy: &Strategy, prices: &[u64], current_price: u64) -> (r: Option<OrderPlan>)
    ensures
        strategy_signal(strategy.strategy_type, strategy.parameters, prices_as_ints(prices@))
            is None ==> r is None,
        strategy_signal(strategy.strategy_type, strategy.parameters, prices_as_ints(prices@))
            matches Some(side) ==> ((r is None <==> current_price == 0
            || strategy.risk_parameters.max_position_size < current_price) && (r matches Some(
            plan,
        ) ==> planned(strategy.risk_parameters, side, current_price, plan))),
{
    match evaluate_signal(strategy.strategy_type, &strategy.parameters, prices) {
        None => None,
        Some(side) => plan_order(&strategy.risk_parameters, side, current_price),
    }
}

} // verus!
