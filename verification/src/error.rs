use vstd::prelude::*;

verus! {

/// Errors returned through the public persistence API. The carried strings
/// describe the failure; they come from the backing store's own reports.
#[derive(Debug, PartialEq)]
pub enum AutofillApiError {
    SqlError { reason: String },
    InterruptedError,
    CryptoError { reason: String },
    NoSuchRecord { guid: String },
    UnexpectedAutofillApiError { reason: String },
}

/// Internal errors of the persistence layer. Each variant carries the
/// message of the underlying failure as a plain string; the layer that
/// talks to the backing store fills it in.
#[derive(Debug, PartialEq)]
pub enum Error {
    OpenDatabaseError(String),
    SqlError(String),
    IoError(String),
    InterruptedError,
    IllegalDatabasePath(String),
    Utf8Error(String),
    JsonError(String),
    InvalidSyncPayload(String),
    CryptoError(String),
    MissingEncryptionKey,
    NoSuchRecord(String),
}

/// How a converted error is to be reported.
#[derive(Debug, PartialEq)]
pub enum ErrorReport {
    /// Report to error telemetry under this class label.
    Report { label: String },
    /// Only log a warning.
    LogWarning,
}

/// The public error an internal error converts to, together with how it
/// should be reported.
#[derive(Debug, PartialEq)]
pub struct ErrorHandling {
    pub err: AutofillApiError,
    pub reporting: Option<ErrorReport>,
}

/// Exactly the conversion `get_error_handling` performs: which public
/// error and which reporting each internal error maps to, message for
/// message.
pub open spec fn spec_error_handling(e: Error, r: ErrorHandling) -> bool {
    match e {
        Error::OpenDatabaseError(m) => {
            &&& r.err matches AutofillApiError::SqlError { reason } && reason@ == m@
            &&& r.reporting matches Some(ErrorReport::Report { label }) && label@
                == "autofill-open-database-error"@
        },
        Error::SqlError(m) => {
            &&& r.err matches AutofillApiError::SqlError { reason } && reason@ == m@
            &&& r.reporting matches Some(ErrorReport::Report { label }) && label@
                == "autofill-sql-error"@
        },
        Error::IoError(m) => {
            &&& r.err matches AutofillApiError::UnexpectedAutofillApiError { reason } && reason@
                == m@
            &&& r.reporting matches Some(ErrorReport::Report { label }) && label@
                == "autofill-io-error"@
        },
        Error::InterruptedError => {
            &&& r.err is InterruptedError
            &&& r.reporting is None
        },
        Error::IllegalDatabasePath(p) => {
            &&& r.err matches AutofillApiError::SqlError { reason } && reason@ == "Path not found: "@
                + p@
            &&& r.reporting matches Some(ErrorReport::Report { label }) && label@
                == "autofill-illegal-database-path"@
        },
        Error::Utf8Error(m) => {
            &&& r.err matches AutofillApiError::UnexpectedAutofillApiError { reason } && reason@
                == m@
            &&& r.reporting matches Some(ErrorReport::Report { label }) && label@
                == "autofill-utf8-error"@
        },
        Error::JsonError(m) => {
            &&& r.err matches AutofillApiError::UnexpectedAutofillApiError { reason } && reason@
                == m@
            &&& r.reporting matches Some(ErrorReport::Report { label }) && label@
                == "autofill-json-error"@
        },
        Error::InvalidSyncPayload(m) => {
            &&& r.err matches AutofillApiError::UnexpectedAutofillApiError { reason } && reason@
                == m@
            &&& r.reporting matches Some(ErrorReport::Report { label }) && label@
                == "autofill-invalid-sync-payload"@
        },
        Error::CryptoError(m) => {
            &&& r.err matches AutofillApiError::CryptoError { reason } && reason@ == m@
            &&& r.reporting matches Some(ErrorReport::Report { label }) && label@
                == "autofill-crypto-error"@
        },
        Error::MissingEncryptionKey => {
            &&& r.err matches AutofillApiError::CryptoError { reason } && reason@
                == "Missing encryption key"@
            &&& r.reporting matches Some(ErrorReport::Report { label }) && label@
                == "autofill-missing-encryption-key"@
        },
        Error::NoSuchRecord(g) => {
            &&& r.err matches AutofillApiError::NoSuchRecord { guid } && guid@ == g@
            &&& r.reporting is Some && r.reporting matches Some(ErrorReport::LogWarning)
        },
    }
}

impl Error {
    /// How this internal error is converted for the public interface and
    /// how it is reported. The details carried into the public error keep
    /// the underlying message unchanged.
    pub fn get_error_handling(&self) -> (r: ErrorHandling)
        ensures
            spec_error_handling(*self, r),
    {
        match self {
            Error::OpenDatabaseError(m) => ErrorHandling {
                err: AutofillApiError::SqlError { reason: m.clone() },
                reporting: Some(
                    ErrorReport::Report { label: "autofill-open-database-error".to_owned() },
                ),
            },
            Error::SqlError(m) => ErrorHandling {
                err: AutofillApiError::SqlError { reason: m.clone() },
                reporting: Some(ErrorReport::Report { label: "autofill-sql-error".to_owned() }),
            },
            Error::IoError(m) => ErrorHandling {
                err: AutofillApiError::UnexpectedAutofillApiError { reason: m.clone() },
                reporting: Some(ErrorReport::Report { label: "autofill-io-error".to_owned() }),
            },
            Error::InterruptedError => ErrorHandling {
                err: AutofillApiError::InterruptedError,
                reporting: None,
            },
            Error::IllegalDatabasePath(p) => {
                let mut reason: String = "Path not found: ".to_owned();
                reason.append(p.as_str());
                ErrorHandling {
                    err: AutofillApiError::SqlError { reason },
                    reporting: Some(
                        ErrorReport::Report {
                            label: "autofill-illegal-database-path".to_owned(),
                        },
                    ),
                }
            },
            Error::Utf8Error(m) => ErrorHandling {
                err: AutofillApiError::UnexpectedAutofillApiError { reason: m.clone() },
                reporting: Some(ErrorReport::Report { label: "autofill-utf8-error".to_owned() }),
            },
            Error::JsonError(m) => ErrorHandling {
                err: AutofillApiError::UnexpectedAutofillApiError { reason: m.clone() },
                reporting: Some(ErrorReport::Report { label: "autofill-json-error".to_owned() }),
            },
            Error::InvalidSyncPayload(m) => ErrorHandling {
                err: AutofillApiError::UnexpectedAutofillApiError { reason: m.clone() },
                reporting: Some(
                    ErrorReport::Report { label: "autofill-invalid-sync-payload".to_owned() },
                ),
            },
            Error::CryptoError(m) => ErrorHandling {
                err: AutofillApiError::CryptoError { reason: m.clone() },
                reporting: Some(ErrorReport::Report { label: "autofill-crypto-error".to_owned() }),
            },
            Error::MissingEncryptionKey => ErrorHandling {
                err: AutofillApiError::CryptoError {
                    reason: "Missing encryption key".to_owned(),
                },
                reporting: Some(
                    ErrorReport::Report {
                        label: "autofill-missing-encryption-key".to_owned(),
                    },
                ),
            },
            Error::NoSuchRecord(g) => ErrorHandling {
                err: AutofillApiError::NoSuchRecord { guid: g.clone() },
                reporting: Some(ErrorReport::LogWarning),
            },
        }
    }
}

} // verus!
