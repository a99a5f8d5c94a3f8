use paper_trader::error::AppError;
use paper_trader::model::{RawParameters, RiskParameters, Strategy, StrategyParameters, StrategyStatus, StrategyType};
use paper_trader::strategies::{CreateStrategyRequest, StrategyRepository, StrategyService, UpdateStrategyRequest};

const OWNER: &str = "64b7f0c2a1b2c3d4e5f60718";
const OTHER: &str = "64b7f0c2a1b2c3d4e5f60719";

fn risk() -> RiskParameters {
    RiskParameters {
        max_position_size: 1_000,
        max_total_positions: 3,
        stop_loss_percentage: 500,
        take_profit_percentage: 1_000,
        max_daily_loss: 100,
        trailing_stop_enabled: false,
        trailing_stop_percentage: 0,
    }
}

fn request(symbols: &[&str]) -> CreateStrategyRequest {
    CreateStrategyRequest {
        name: "cross".to_string(),
        description: "fast over slow".to_string(),
        strategy_type: StrategyType::MovingAverageCrossover,
        symbols: symbols.iter().map(|s| s.to_string()).collect(),
        parameters: RawParameters { fast_ma_period: Some(5), ..Default::default() },
        risk_parameters: risk(),
    }
}

fn no_change() -> UpdateStrategyRequest {
    UpdateStrategyRequest {
        name: None,
        description: None,
        status: None,
        symbols: None,
        parameters: None,
        risk_parameters: None,
    }
}

#[test]
fn created_strategies_start_paused() {
    let mut svc = StrategyService::new();
    let s = svc.create_strategy(&OWNER.to_string(), request(&["BTC"]), 7).unwrap();
    assert_eq!(s.status, StrategyStatus::Paused);
    assert_eq!(s.parameters.fast_ma_period, 5);
    assert_eq!(s.parameters.slow_ma_period, 21);
    assert_eq!(s.created_at, 7);
    let again = svc.get_strategy(&OWNER.to_string(), s.id).unwrap();
    assert_eq!(again.name, "cross");
}

#[test]
fn invalid_requests_are_refused() {
    let mut svc = StrategyService::new();
    assert!(matches!(
        svc.create_strategy(&"not-an-id".to_string(), request(&["BTC"]), 0),
        Err(AppError::ValidationError(_))
    ));
    assert!(matches!(
        svc.create_strategy(&OWNER.to_string(), request(&[]), 0),
        Err(AppError::ValidationError(_))
    ));
    let mut long = request(&["BTC"]);
    long.name = "x".repeat(101);
    assert!(matches!(svc.create_strategy(&OWNER.to_string(), long, 0), Err(AppError::ValidationError(_))));
}

#[test]
fn only_the_owner_may_update() {
    let mut svc = StrategyService::new();
    let s = svc.create_strategy(&OWNER.to_string(), request(&["BTC"]), 0).unwrap();
    assert!(matches!(
        svc.update_strategy(&OTHER.to_string(), s.id, no_change(), 1),
        Err(AppError::AuthorizationError(_))
    ));
    assert!(matches!(
        svc.update_strategy(&OWNER.to_string(), s.id + 1, no_change(), 1),
        Err(AppError::NotFoundError(_))
    ));
}

#[test]
fn activation_and_symbol_changes_reach_the_registry() {
    let mut svc = StrategyService::new();
    let owner = OWNER.to_string();
    let s = svc.create_strategy(&owner, request(&["BTC", "ETH"]), 0).unwrap();
    let mut up = no_change();
    up.status = Some(StrategyStatus::Active);
    let (updated, changes) = svc.update_strategy(&owner, s.id, up, 1).unwrap();
    assert_eq!(updated.status, StrategyStatus::Active);
    assert_eq!(changes.subscribe, vec!["BTC".to_string(), "ETH".to_string()]);
    let mut up = no_change();
    up.symbols = Some(vec!["ETH".to_string(), "SOL".to_string()]);
    let (_, changes) = svc.update_strategy(&owner, s.id, up, 2).unwrap();
    assert_eq!(changes.subscribe, vec!["SOL".to_string()]);
    assert_eq!(changes.unsubscribe, vec!["BTC".to_string()]);
    let mut up = no_change();
    up.status = Some(StrategyStatus::Stopped);
    let (_, changes) = svc.update_strategy(&owner, s.id, up, 3).unwrap();
    assert_eq!(changes.unsubscribe, vec!["ETH".to_string(), "SOL".to_string()]);
    assert!(svc.registry().strategies_for_symbol(&"ETH".to_string()).is_empty());
}

#[test]
fn deleting_an_active_strategy_unsubscribes() {
    let mut svc = StrategyService::new();
    let owner = OWNER.to_string();
    let s = svc.create_strategy(&owner, request(&["BTC"]), 0).unwrap();
    let mut up = no_change();
    up.status = Some(StrategyStatus::Active);
    svc.update_strategy(&owner, s.id, up, 1).unwrap();
    let changes = svc.delete_strategy(&owner, s.id).unwrap();
    assert_eq!(changes.unsubscribe, vec!["BTC".to_string()]);
    assert!(matches!(svc.get_strategy(&owner, s.id), Err(AppError::NotFoundError(_))));
    assert!(svc.get_user_strategies(&owner).is_empty());
}

#[test]
fn user_and_active_listings() {
    let mut svc = StrategyService::new();
    let owner = OWNER.to_string();
    svc.create_strategy(&owner, request(&["BTC"]), 0).unwrap();
    svc.create_strategy(&OTHER.to_string(), request(&["ETH"]), 0).unwrap();
    let s3 = svc.create_strategy(&owner, request(&["SOL"]), 0).unwrap();
    assert_eq!(svc.get_user_strategies(&owner).len(), 2);
    let mut up = no_change();
    up.status = Some(StrategyStatus::Active);
    svc.update_strategy(&owner, s3.id, up, 1).unwrap();
    let active = svc.repository().get_active_strategies();
    assert_eq!(active.len(), 1);
    assert_eq!(active[0].id, s3.id);
}

#[test]
fn executions_are_recorded_in_store_and_cache() {
    let mut svc = StrategyService::new();
    let owner = OWNER.to_string();
    let s = svc.create_strategy(&owner, request(&["BTC"]), 0).unwrap();
    let mut up = no_change();
    up.status = Some(StrategyStatus::Active);
    svc.update_strategy(&owner, s.id, up, 1).unwrap();
    svc.record_execution(s.id, 42).unwrap();
    assert_eq!(svc.get_strategy(&owner, s.id).unwrap().last_executed_at, Some(42));
    assert_eq!(svc.registry().cached_strategy(s.id).unwrap().last_executed_at, Some(42));
    assert!(matches!(svc.record_execution(s.id + 7, 1), Err(AppError::NotFoundError(_))));
}

#[test]
fn start_up_follows_stored_active_strategies() {
    let mut repo = StrategyRepository::new();
    for (symbols, status) in [(vec!["BTC", "ETH"], StrategyStatus::Active), (vec!["SOL"], StrategyStatus::Paused), (vec!["ETH", "ADA"], StrategyStatus::Active)] {
        repo.create_strategy(Strategy {
            id: 0,
            user_id: OWNER.to_string(),
            name: "s".to_string(),
            description: String::new(),
            strategy_type: StrategyType::RSIStrategy,
            status,
            symbols: symbols.iter().map(|s| s.to_string()).collect(),
            parameters: StrategyParameters::from_raw(&RawParameters::default()),
            risk_parameters: risk(),
            created_at: 0,
            updated_at: 0,
            last_executed_at: None,
        })
        .unwrap();
    }
    let (svc, subscribed) = StrategyService::from_repository(repo);
    assert_eq!(subscribed, vec!["BTC".to_string(), "ETH".to_string(), "ADA".to_string()]);
    let mut eth = svc.registry().strategies_for_symbol(&"ETH".to_string());
    eth.sort();
    assert_eq!(eth, vec![0, 2]);
    assert!(svc.registry().strategies_for_symbol(&"SOL".to_string()).is_empty());
}
