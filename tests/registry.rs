use paper_trader::model::{
    RiskParameters, Strategy, StrategyParameters, StrategyStatus, StrategyType,
};
use paper_trader::registry::StrategyRegistry;

fn risk() -> RiskParameters {
    RiskParameters {
        max_position_size: 1_000,
        max_total_positions: 3,
        stop_loss_percentage: 500,
        take_profit_percentage: 1_000,
        max_daily_loss: 100,
        trailing_stop_enabled: false,
        trailing_stop_percentage: 0,
    }
}

pub fn strategy(id: u64, symbols: &[&str], status: StrategyStatus) -> Strategy {
    Strategy {
        id,
        user_id: "64b7f0c2a1b2c3d4e5f60718".to_string(),
        name: "s".to_string(),
        description: String::new(),
        strategy_type: StrategyType::MovingAverageCrossover,
        status,
        symbols: symbols.iter().map(|s| s.to_string()).collect(),
        parameters: StrategyParameters::from_raw(&Default::default()),
        risk_parameters: risk(),
        created_at: 0,
        updated_at: 0,
        last_executed_at: None,
    }
}

fn names(v: &[String]) -> Vec<&str> {
    v.iter().map(|s| s.as_str()).collect()
}

#[test]
fn activation_subscribes_first_followers_only() {
    let mut reg = StrategyRegistry::new();
    let sub = reg.activate(strategy(1, &["BTC", "ETH", "BTC"], StrategyStatus::Active));
    assert_eq!(names(&sub), vec!["BTC", "ETH"]);
    let sub = reg.activate(strategy(2, &["ETH", "SOL"], StrategyStatus::Active));
    assert_eq!(names(&sub), vec!["SOL"]);
    let mut eth = reg.strategies_for_symbol(&"ETH".to_string());
    eth.sort();
    assert_eq!(eth, vec![1, 2]);
    assert!(reg.cached_strategy(2).is_some());
}

#[test]
fn deactivating_last_follower_unsubscribes_exactly_once() {
    let mut reg = StrategyRegistry::new();
    reg.activate(strategy(1, &["BTC", "ETH"], StrategyStatus::Active));
    reg.activate(strategy(2, &["ETH"], StrategyStatus::Active));
    let symbols = vec!["BTC".to_string(), "ETH".to_string(), "BTC".to_string()];
    let unsub = reg.deactivate(1, &symbols);
    assert_eq!(names(&unsub), vec!["BTC"]);
    assert!(reg.strategies_for_symbol(&"BTC".to_string()).is_empty());
    assert_eq!(reg.strategies_for_symbol(&"ETH".to_string()), vec![2]);
    assert!(reg.cached_strategy(1).is_none());
}

#[test]
fn reconcile_moves_between_symbol_lists() {
    let mut reg = StrategyRegistry::new();
    reg.activate(strategy(1, &["BTC", "ETH"], StrategyStatus::Active));
    reg.activate(strategy(2, &["ETH"], StrategyStatus::Active));
    let old = vec!["BTC".to_string(), "ETH".to_string()];
    let changes = reg.reconcile_symbols(strategy(1, &["SOL"], StrategyStatus::Active), &old);
    assert_eq!(names(&changes.subscribe), vec!["SOL"]);
    assert_eq!(names(&changes.unsubscribe), vec!["BTC"]);
    assert_eq!(reg.strategies_for_symbol(&"ETH".to_string()), vec![2]);
    assert_eq!(reg.strategies_for_symbol(&"SOL".to_string()), vec![1]);
    assert_eq!(reg.cached_strategy(1).unwrap().symbols, vec!["SOL".to_string()]);
}

#[test]
fn status_transitions_drive_subscriptions() {
    let mut reg = StrategyRegistry::new();
    let symbols = vec!["BTC".to_string()];
    let ch = reg.update_strategy_status(strategy(1, &["BTC"], StrategyStatus::Active), StrategyStatus::Paused, &symbols);
    assert_eq!(names(&ch.subscribe), vec!["BTC"]);
    let ch = reg.update_strategy_status(strategy(1, &["BTC"], StrategyStatus::Stopped), StrategyStatus::Active, &symbols);
    assert_eq!(names(&ch.unsubscribe), vec!["BTC"]);
    let ch = reg.update_strategy_status(strategy(1, &["BTC"], StrategyStatus::Paused), StrategyStatus::Stopped, &symbols);
    assert!(ch.subscribe.is_empty() && ch.unsubscribe.is_empty());
    assert!(reg.strategies_for_symbol(&"BTC".to_string()).is_empty());
}

#[test]
fn reconcile_reports_every_new_only_symbol() {
    let mut reg = StrategyRegistry::new();
    reg.activate(strategy(1, &["BTC"], StrategyStatus::Active));
    reg.activate(strategy(2, &["ETH"], StrategyStatus::Active));
    let old = vec!["BTC".to_string()];
    let changes = reg.reconcile_symbols(strategy(1, &["ETH", "SOL", "ETH"], StrategyStatus::Active), &old);
    // ETH is already followed by strategy 2; it is still reported, once
    assert_eq!(names(&changes.subscribe), vec!["ETH", "SOL"]);
    assert_eq!(names(&changes.unsubscribe), vec!["BTC"]);
    let mut eth = reg.strategies_for_symbol(&"ETH".to_string());
    eth.sort();
    assert_eq!(eth, vec![1, 2]);
}
