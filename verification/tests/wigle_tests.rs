use whereami::provider::{apple_outcome, OutcomeKind, Provider};
use whereami::wigle::{
    classify_body, classify_status, credentials_configured, not_configured_error, wigle_outcome,
    wigle_skipped, WigleError,
};

#[test]
fn wigle_error_messages() {
    assert_eq!(WigleError::NotFound.message(), "BSSID not found in WiGLE");
    assert_eq!(WigleError::RateLimited.message(), "WiGLE rate limit exceeded");
    assert_eq!(WigleError::Network("timeout".to_string()).message(), "WiGLE network error: timeout");
    assert_eq!(not_configured_error().message(), "WiGLE network error: WiGLE credentials not configured");
}

#[test]
fn status_classification() {
    assert!(classify_status(200, "200 OK").is_ok());
    assert!(matches!(classify_status(429, "429 Too Many Requests"), Err(WigleError::RateLimited)));
    match classify_status(403, "403 Forbidden") {
        Err(WigleError::Network(m)) => assert_eq!(m, "WiGLE API returned 403 Forbidden - check credentials"),
        _ => panic!("expected a network error"),
    }
    match classify_status(500, "500 Internal Server Error") {
        Err(WigleError::Network(m)) => assert_eq!(m, "WiGLE API returned HTTP 500 Internal Server Error"),
        _ => panic!("expected a network error"),
    }
}

#[test]
fn body_classification() {
    assert!(classify_body(1, 1, true, true).is_ok());
    assert!(matches!(classify_body(0, 1, true, true), Err(WigleError::NotFound)));
    assert!(matches!(classify_body(3, 0, true, true), Err(WigleError::NotFound)));
    assert!(matches!(classify_body(3, 2, false, true), Err(WigleError::NotFound)));
    assert!(matches!(classify_body(3, 2, true, false), Err(WigleError::NotFound)));
}

#[test]
fn outcomes_and_quota_refunds() {
    assert_eq!(wigle_outcome(&Ok(())), (OutcomeKind::Found, false));
    assert_eq!(wigle_outcome(&Err(WigleError::NotFound)), (OutcomeKind::NotFound, false));
    assert_eq!(wigle_outcome(&Err(WigleError::RateLimited)), (OutcomeKind::HardStop, true));
    assert_eq!(wigle_outcome(&Err(WigleError::Network("x".into()))), (OutcomeKind::NetworkError, true));
    assert!(wigle_skipped(false, true));
    assert!(wigle_skipped(true, false));
    assert!(!wigle_skipped(true, true));
    assert!(credentials_configured("u", "k"));
    assert!(!credentials_configured("", "k"));
    assert!(!credentials_configured("u", ""));
    assert_eq!(apple_outcome(true, true), OutcomeKind::Found);
    assert_eq!(apple_outcome(true, false), OutcomeKind::NotFound);
    assert_eq!(apple_outcome(false, true), OutcomeKind::NetworkError);
    assert_eq!(Provider::Apple.name(), "apple");
    assert_eq!(Provider::Wigle.name(), "wigle");
}
