use paper_trader::config::{parse_duration, parse_trimmed_duration, AppEnv};
use paper_trader::error::AppError;

#[test]
fn durations_in_each_unit() {
    assert_eq!(parse_trimmed_duration("90s").unwrap(), 90);
    assert_eq!(parse_trimmed_duration("60m").unwrap(), 3_600);
    assert_eq!(parse_trimmed_duration("12h").unwrap(), 43_200);
    assert_eq!(parse_trimmed_duration("7d").unwrap(), 604_800);
    assert_eq!(parse_duration("  7d\n").unwrap(), 604_800);
}

#[test]
fn malformed_durations() {
    for text in ["", "m", "10", "10x", "10mm", "-5m", "1 m", "99999999999999999999s"] {
        assert!(matches!(parse_trimmed_duration(text), Err(AppError::ConfigError(_))), "{}", text);
    }
    assert!(matches!(parse_duration("   "), Err(AppError::ConfigError(_))));
    assert!(matches!(parse_trimmed_duration("9223372036854776s"), Err(AppError::ConfigError(_))));
    assert_eq!(parse_trimmed_duration("9223372036854775s").unwrap(), 9_223_372_036_854_775);
}

#[test]
fn environments_by_name() {
    assert_eq!(AppEnv::from_name("PRODUCTION"), AppEnv::Production);
    assert_eq!(AppEnv::from_name("Test"), AppEnv::Test);
    assert_eq!(AppEnv::from_name("staging"), AppEnv::Development);
    assert_eq!(AppEnv::from_lowercase_name("production"), AppEnv::Production);
    assert_eq!(AppEnv::from_lowercase_name("Production"), AppEnv::Development);
}
