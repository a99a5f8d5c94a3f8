use paper_trader::error::AppError;
use paper_trader::ids::validate_object_id;
use paper_trader::model::OrderSide;
use paper_trader::paper_trading::PaperTradingRepository;

const OWNER: &str = "64B7F0C2A1B2C3D4E5F60718";

#[test]
fn object_ids_are_24_hex_digits() {
    assert!(validate_object_id(&"64b7f0c2a1b2c3d4e5f60718".to_string()).is_ok());
    assert!(validate_object_id(&OWNER.to_string()).is_ok());
    assert!(validate_object_id(&"64b7f0c2a1b2c3d4e5f6071".to_string()).is_err());
    assert!(validate_object_id(&"64b7f0c2a1b2c3d4e5f6071g".to_string()).is_err());
    assert!(validate_object_id(&String::new()).is_err());
}

#[test]
fn accounts_trade_independently() {
    let mut repo = PaperTradingRepository::new();
    let a = OWNER.to_string();
    let b = "000000000000000000000001".to_string();
    repo.enable_paper_trading(&a, 1_000).unwrap();
    repo.enable_paper_trading(&b, 50).unwrap();
    repo.create_order(&a, &"BTC".to_string(), OrderSide::Buy, 2, 100, 1).unwrap();
    assert_eq!(repo.get_user_balance(&a).unwrap(), 800);
    assert_eq!(repo.get_user_balance(&b).unwrap(), 50);
    assert_eq!(
        repo.create_order(&b, &"BTC".to_string(), OrderSide::Buy, 1, 100, 1).unwrap_err(),
        AppError::InsufficientBalance
    );
}

#[test]
fn unknown_or_malformed_owner() {
    let mut repo = PaperTradingRepository::new();
    assert!(matches!(repo.get_user_balance(&OWNER.to_string()), Err(AppError::NotFoundError(_))));
    assert!(matches!(
        repo.create_order(&"zz".to_string(), &"BTC".to_string(), OrderSide::Buy, 1, 1, 0),
        Err(AppError::ValidationError(_))
    ));
}

#[test]
fn re_enabling_resets_the_account() {
    let mut repo = PaperTradingRepository::new();
    let a = OWNER.to_string();
    repo.enable_paper_trading(&a, 1_000).unwrap();
    repo.create_order(&a, &"BTC".to_string(), OrderSide::Buy, 2, 100, 1).unwrap();
    repo.enable_paper_trading(&a, 5_000).unwrap();
    let account = repo.get_account(&a).unwrap();
    assert_eq!(account.balance(), 5_000);
    assert_eq!(account.initial_balance(), 5_000);
    assert!(account.positions().is_empty());
}

#[test]
fn error_status_codes() {
    assert_eq!(AppError::InsufficientBalance.status_code(), 400);
    assert_eq!(AppError::NotFoundError(String::new()).status_code(), 404);
    assert_eq!(AppError::AuthorizationError(String::new()).status_code(), 403);
    assert_eq!(AppError::AuthError(String::new()).status_code(), 401);
    assert_eq!(AppError::InternalError(String::new()).status_code(), 500);
}

#[test]
fn repository_reads_and_refreshes_positions() {
    let mut repo = PaperTradingRepository::new();
    let a = OWNER.to_string();
    repo.enable_paper_trading(&a, 1_000).unwrap();
    repo.create_order(&a, &"BTC".to_string(), OrderSide::Buy, 2, 100, 1).unwrap();
    repo.update_position(&a, 0, 150).unwrap();
    let positions = repo.get_positions_by_user_id(&a).unwrap();
    assert_eq!((positions[0].current_price, positions[0].unrealized_pnl), (150, 100));
    assert!(matches!(repo.update_position(&a, 1, 150), Err(AppError::ValidationError(_))));
    assert_eq!(repo.get_orders_by_user_id(&a).unwrap().len(), 1);
    let summary = repo.get_user_balance_details(&a, &vec![150]).unwrap();
    assert_eq!(summary.total_account_value, 800 + 300 + 100);
    assert_eq!(summary.performance, Some(2_000));
    assert!(matches!(repo.get_user_balance_details(&a, &vec![]), Err(AppError::ValidationError(_))));
    let stats = repo.get_trading_stats(&a, &vec![150]).unwrap();
    // cash 800 plus unrealised 100 against the funding of 1_000
    assert_eq!((stats.total_trades, stats.total_pnl, stats.pnl_percentage), (1, -100, Some(-1_000)));
}
