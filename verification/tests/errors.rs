use nimbus_core::error::{AutofillApiError, Error, ErrorReport};

#[test]
fn sql_error_keeps_message_and_reports() {
    let h = Error::SqlError("no such table: x".to_string()).get_error_handling();
    assert_eq!(h.err, AutofillApiError::SqlError { reason: "no such table: x".to_string() });
    assert_eq!(
        h.reporting,
        Some(ErrorReport::Report { label: "autofill-sql-error".to_string() })
    );
}

#[test]
fn interrupted_converts_without_reporting() {
    let h = Error::InterruptedError.get_error_handling();
    assert_eq!(h.err, AutofillApiError::InterruptedError);
    assert_eq!(h.reporting, None);
}

#[test]
fn illegal_path_formats_reason() {
    let h = Error::IllegalDatabasePath("/bad/path".to_string()).get_error_handling();
    assert_eq!(
        h.err,
        AutofillApiError::SqlError { reason: "Path not found: /bad/path".to_string() }
    );
}

#[test]
fn no_such_record_logs_a_warning() {
    let h = Error::NoSuchRecord("guid-1".to_string()).get_error_handling();
    assert_eq!(h.err, AutofillApiError::NoSuchRecord { guid: "guid-1".to_string() });
    assert_eq!(h.reporting, Some(ErrorReport::LogWarning));
}

#[test]
fn missing_key_is_a_crypto_error() {
    let h = Error::MissingEncryptionKey.get_error_handling();
    assert_eq!(
        h.err,
        AutofillApiError::CryptoError { reason: "Missing encryption key".to_string() }
    );
}
