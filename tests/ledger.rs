use paper_trader::error::AppError;
use paper_trader::ledger::PaperAccount;
use paper_trader::model::{OrderSide, OrderStatus, OrderType};

fn btc() -> String {
    "BTC-USDT".to_string()
}

fn account(cash: u64) -> PaperAccount {
    PaperAccount::new("64b7f0c2a1b2c3d4e5f60718".to_string(), cash)
}

#[test]
fn buy_opens_position_and_debits_cash() {
    let mut a = account(10_000);
    let order = a.place_order(&btc(), OrderSide::Buy, 10, 100, 1).unwrap();
    assert_eq!(a.balance(), 9_000);
    assert_eq!(order.quantity, 10);
    assert_eq!(order.price, 100);
    assert_eq!(order.status, OrderStatus::Filled);
    assert_eq!(order.order_type, OrderType::Market);
    let p = &a.positions()[0];
    assert_eq!((p.quantity, p.entry_price, p.cost_basis), (10, 100, 1000));
    assert_eq!(order.position_id, Some(p.id));
}

#[test]
fn buys_average_their_cost() {
    let mut a = account(100_000);
    a.place_order(&btc(), OrderSide::Buy, 10, 100, 1).unwrap();
    a.place_order(&btc(), OrderSide::Buy, 30, 200, 2).unwrap();
    a.place_order(&btc(), OrderSide::Buy, 5, 130, 3).unwrap();
    let p = &a.positions()[0];
    let total_cost = 10 * 100 + 30 * 200 + 5 * 130;
    assert_eq!(p.quantity, 45);
    assert_eq!(p.cost_basis, total_cost);
    assert_eq!(p.entry_price as u128, total_cost / 45);
    assert_eq!(a.positions().len(), 1);
}

#[test]
fn buy_beyond_balance_is_refused_and_changes_nothing() {
    let mut a = account(500);
    a.place_order(&btc(), OrderSide::Buy, 2, 100, 1).unwrap();
    let r = a.place_order(&btc(), OrderSide::Buy, 4, 100, 2);
    assert_eq!(r.unwrap_err(), AppError::InsufficientBalance);
    assert_eq!(a.balance(), 300);
    assert_eq!(a.positions()[0].quantity, 2);
    assert_eq!(a.orders().len(), 1);
}

#[test]
fn selling_everything_closes_the_position() {
    let mut a = account(1_000);
    a.place_order(&btc(), OrderSide::Buy, 5, 100, 1).unwrap();
    let order = a.place_order(&btc(), OrderSide::Sell, 5, 120, 2).unwrap();
    assert!(a.positions().is_empty());
    assert_eq!(a.balance(), 1_000 - 500 + 600);
    assert!(order.position_id.is_some());
}

#[test]
fn selling_part_keeps_entry_and_realises_profit() {
    let mut a = account(1_000);
    a.place_order(&btc(), OrderSide::Buy, 5, 100, 1).unwrap();
    a.place_order(&btc(), OrderSide::Sell, 2, 90, 2).unwrap();
    let p = &a.positions()[0];
    assert_eq!(p.quantity, 3);
    assert_eq!(p.entry_price, 100);
    assert_eq!(p.realized_pnl, -20);
    assert_eq!(a.balance(), 1_000 - 500 + 180);
}

#[test]
fn sell_without_position_or_quantity_is_refused() {
    let mut a = account(1_000);
    assert_eq!(a.place_order(&btc(), OrderSide::Sell, 1, 100, 1).unwrap_err(), AppError::NoPosition);
    a.place_order(&btc(), OrderSide::Buy, 1, 100, 1).unwrap();
    assert_eq!(
        a.place_order(&btc(), OrderSide::Sell, 2, 100, 2).unwrap_err(),
        AppError::InsufficientQuantity
    );
    assert_eq!(a.balance(), 900);
}

#[test]
fn zero_quantity_is_out_of_range() {
    let mut a = account(1_000);
    assert_eq!(a.place_order(&btc(), OrderSide::Buy, 0, 100, 1).unwrap_err(), AppError::OutOfRange);
}

#[test]
fn orders_apply_in_sequence_without_lost_updates() {
    let mut a = account(10_000);
    a.place_order(&btc(), OrderSide::Buy, 10, 100, 1).unwrap();
    a.place_order(&"ETH-USDT".to_string(), OrderSide::Buy, 20, 50, 2).unwrap();
    a.place_order(&btc(), OrderSide::Sell, 4, 150, 3).unwrap();
    assert_eq!(a.balance(), 10_000 - 1_000 - 1_000 + 600);
    let ids: Vec<u64> = a.orders().iter().map(|o| o.id).collect();
    assert_eq!(ids, vec![0, 1, 2]);
}

#[test]
fn cash_overflow_is_out_of_range() {
    let mut a = account(u64::MAX - 10);
    a.place_order(&btc(), OrderSide::Buy, 1, 5, 1).unwrap();
    assert_eq!(a.place_order(&btc(), OrderSide::Sell, 1, 100, 2).unwrap_err(), AppError::OutOfRange);
}

#[test]
fn marking_refreshes_unrealised_profit_only() {
    let mut a = account(10_000);
    a.place_order(&btc(), OrderSide::Buy, 10, 100, 1).unwrap();
    a.mark_position(0, 130).unwrap();
    let p = &a.positions()[0];
    assert_eq!((p.current_price, p.unrealized_pnl), (130, 300));
    a.mark_position(0, 90).unwrap();
    assert_eq!(a.positions()[0].unrealized_pnl, -100);
    assert_eq!(a.positions()[0].quantity, 10);
    assert_eq!(a.balance(), 9_000);
}

#[test]
fn balance_summary_values_positions() {
    let mut a = account(10_000);
    a.place_order(&btc(), OrderSide::Buy, 10, 100, 1).unwrap();
    a.place_order(&"ETH-USDT".to_string(), OrderSide::Buy, 20, 50, 2).unwrap();
    let s = a.balance_summary(&vec![150, 40]).unwrap();
    assert_eq!(s.cash_balance, 8_000);
    assert_eq!(s.position_value, 1_500 + 800);
    assert_eq!(s.unrealized_pnl, 500 - 200);
    // cash, plus market value, plus unrealised profit
    assert_eq!(s.total_account_value, 8_000 + 2_300 + 300);
    assert_eq!(s.initial_balance, 10_000);
    assert_eq!(s.performance, Some(600));
    let s = a.balance_summary(&vec![50, 40]).unwrap();
    assert_eq!(s.total_account_value, 8_000 + 500 + 800 - 700);
    assert_eq!(s.performance, Some(-1_400));
    assert_eq!(account(0).balance_summary(&vec![]).unwrap().performance, None);
}

#[test]
fn trading_stats_count_trades_and_profit() {
    let mut a = account(10_000);
    a.place_order(&btc(), OrderSide::Buy, 10, 100, 1).unwrap();
    a.place_order(&btc(), OrderSide::Sell, 5, 120, 2).unwrap();
    // cash 10_000 - 1_000 + 600 = 9_600; 5 left at entry 100, now 90: -50
    let s = a.trading_stats(&vec![90]).unwrap();
    assert_eq!(s.total_trades, 2);
    assert_eq!(s.current_balance, 9_600);
    assert_eq!(s.total_pnl, 9_600 - 50 - 10_000);
    assert_eq!(s.pnl_percentage, Some(-450 * 10_000 / 10_000));
}

#[test]
fn position_records_follow_the_fills() {
    let mut a = account(10_000);
    let first = a.place_order(&btc(), OrderSide::Buy, 4, 100, 1).unwrap();
    let opened = a.positions()[0].duplicate();
    assert_eq!(opened.id, first.id);
    assert_eq!(opened.side, OrderSide::Buy);
    assert_eq!((opened.current_price, opened.unrealized_pnl, opened.realized_pnl), (100, 0, 0));
    assert_eq!((opened.opened_at, opened.updated_at), (1, 1));
    let second = a.place_order(&btc(), OrderSide::Buy, 4, 200, 2).unwrap();
    let p = &a.positions()[0];
    assert_eq!(second.position_id, Some(opened.id));
    assert_eq!((p.id, p.opened_at, p.updated_at, p.current_price), (opened.id, 1, 2, 200));
    assert_eq!((p.quantity, p.entry_price), (8, 150));
    let third = a.place_order(&btc(), OrderSide::Sell, 3, 170, 3).unwrap();
    let p = &a.positions()[0];
    assert_eq!(third.position_id, Some(opened.id));
    assert_eq!((p.id, p.quantity, p.entry_price, p.realized_pnl, p.current_price), (opened.id, 5, 150, 60, 170));
    let last = a.place_order(&btc(), OrderSide::Sell, 5, 160, 4).unwrap();
    assert_eq!(last.position_id, Some(opened.id));
    assert!(a.positions().is_empty());
}
