use soldr::config::{Config, ConfigError};
use soldr::error::AppError;
use soldr::ingest::{capture, MAX_BODY_BYTES};

fn config_with_secret(secret: &str) -> Config {
    let mut c = Config::default();
    c.management.secret = secret.to_string();
    c
}

#[test]
fn secret_of_thirty_one_rejected_thirty_two_accepted() {
    assert_eq!(config_with_secret(&"a".repeat(31)).validate(), Err(ConfigError::SecretTooShort));
    assert_eq!(config_with_secret(&"a".repeat(32)).validate(), Ok(()));
}

#[test]
fn secret_length_counts_characters() {
    assert_eq!(config_with_secret(&"é".repeat(32)).validate(), Ok(()));
    assert_eq!(config_with_secret(&"é".repeat(31)).validate(), Err(ConfigError::SecretTooShort));
}

#[test]
fn default_config_values() {
    let c = Config::default();
    assert_eq!(c.database.url, "sqlite::memory:");
    assert_eq!(c.proxy.listen, "0.0.0.0:3000");
    assert_eq!(c.management.listen, "0.0.0.0:3443");
    assert!(!c.tls.enable);
    assert_eq!(c.validate(), Err(ConfigError::SecretTooShort));
}

#[test]
fn body_of_one_million_accepted_one_more_rejected() {
    let ok = capture("POST".to_string(), "/".to_string(), vec![], vec![7u8; MAX_BODY_BYTES]).unwrap();
    assert_eq!(ok.body.unwrap().len(), 1_000_000);
    let too_big = capture("POST".to_string(), "/".to_string(), vec![], vec![7u8; 1_000_001]);
    assert_eq!(too_big.unwrap_err(), AppError::BodyTooLarge);
}

#[test]
fn capture_keeps_fields() {
    let headers = vec![("Host".to_string(), "example.wh.soldr.dev".to_string())];
    let r = capture("PUT".to_string(), "/a?b=c".to_string(), headers.clone(), b"x".to_vec()).unwrap();
    assert_eq!(r.method, "PUT");
    assert_eq!(r.uri, "/a?b=c");
    assert_eq!(r.headers, headers);
    assert_eq!(r.body, Some(b"x".to_vec()));
}
