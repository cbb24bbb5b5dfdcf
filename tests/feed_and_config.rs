use ipblacklist::config::{log_level_from_flags, CliArguments, DbType, LogLevel, DEFAULT_EXPIRATION_DAYS, DEFAULT_STALE_DAYS};
use ipblacklist::feed::{check_verdict, classify_status, response_body, score_verdict, ResponseClass};
use ipblacklist::logger::Logger;

#[test]
fn status_classes() {
    assert_eq!(classify_status(200), ResponseClass::Success);
    assert_eq!(classify_status(299), ResponseClass::Success);
    assert_eq!(classify_status(429), ResponseClass::RequestLimit);
    assert_eq!(classify_status(500), ResponseClass::RequestError);
    assert_eq!(classify_status(302), ResponseClass::RequestError);
}

#[test]
fn body_only_on_success() {
    assert_eq!(response_body(200, Some(String::from("x"))), Some(String::from("x")));
    assert_eq!(response_body(200, None), None);
    assert_eq!(response_body(429, Some(String::from("x"))), None);
    assert_eq!(response_body(503, Some(String::from("x"))), None);
}

#[test]
fn score_threshold() {
    assert_eq!(score_verdict(Some(100)), Some(true));
    assert_eq!(score_verdict(Some(99)), Some(false));
    assert_eq!(score_verdict(None), None);
}

#[test]
fn verdict_from_check_body() {
    assert_eq!(check_verdict(r#"{"data":{"ipAddress":"1.2.3.4","abuseConfidenceScore":100}}"#), Some(true));
    assert_eq!(check_verdict(r#"{"data":{"abuseConfidenceScore":42}}"#), Some(false));
    assert_eq!(check_verdict(r#"{"data":{}}"#), None);
    assert_eq!(check_verdict(r#"{"data":{"abuseConfidenceScore":"100"}}"#), None);
    assert_eq!(check_verdict("not json"), None);
}

#[test]
fn log_levels_from_flags() {
    assert_eq!(log_level_from_flags(0, 0), Some(LogLevel::Info));
    assert_eq!(log_level_from_flags(0, 1), Some(LogLevel::Debug));
    assert_eq!(log_level_from_flags(0, 3), Some(LogLevel::Trace));
    assert_eq!(log_level_from_flags(1, 0), Some(LogLevel::Warn));
    assert_eq!(log_level_from_flags(2, 0), Some(LogLevel::Error));
    assert_eq!(log_level_from_flags(3, 0), None);
}

#[test]
fn engine_names() {
    assert_eq!(DbType::parse("postgres"), Some(DbType::Postgres));
    assert_eq!(DbType::parse("mysql"), Some(DbType::Mysql));
    assert_eq!(DbType::parse("sqlite"), Some(DbType::Sqlite));
    assert_eq!(DbType::parse("oracle"), None);
    assert_eq!(DbType::Sqlite.name(), "sqlite");
}

fn arguments(key: Option<&str>, expiration_days: u32, stale_days: u32) -> CliArguments {
    CliArguments {
        listen: String::from("::"),
        port: 8080,
        log_level: None,
        expiration_days,
        stale_days,
        db_type: DbType::Sqlite,
        db_host: String::new(),
        db_port: 0,
        db_name: String::new(),
        db_user: String::new(),
        db_pass: String::new(),
        db_path: String::from("blacklist.db"),
        api_abuseipdb: key.map(String::from),
    }
}

#[test]
fn configuration_checks() {
    assert!(arguments(Some("k"), 14, 28).feed_enabled());
    assert!(!arguments(None, 14, 28).feed_enabled());
    assert!(!arguments(None, DEFAULT_EXPIRATION_DAYS, DEFAULT_STALE_DAYS).thresholds_misordered());
    assert!(arguments(None, 28, 28).thresholds_misordered());
}

#[test]
fn logger_pair() {
    let (_before, _after) = Logger::new();
}
