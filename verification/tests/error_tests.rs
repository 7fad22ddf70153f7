//! Tests of the error module.

use infrahub_erd::error::Error;

#[test]
fn test_config_error_display() {
    let err = Error::Config("missing url".to_string());
    assert_eq!(err.message(), "config error: missing url");
}

#[test]
fn test_parse_error_display() {
    let err = Error::Parse("unexpected token".to_string());
    assert_eq!(err.message(), "schema parse error: unexpected token");
}
