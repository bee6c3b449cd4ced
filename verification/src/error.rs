//! Errors returned by the core services.
use crate::i18n::Language;
use vstd::prelude::*;

verus! {

/// What kind of I/O failure an I/O error reports.
#[derive(Debug, Clone, Copy, PartialEq, Eq, Structural)]
pub enum IoErrorKind {
    NotFound,
    ConnectionRefused,
    StorageFull,
    Other,
}

/// Errors returned by core services. Failures of the operating system, of
/// the MTP layer and of JSON encoding carry their description; an MTP
/// failure also tells whether another process holds the device exclusively.
#[derive(Debug)]
pub enum Error {
    Io { kind: IoErrorKind, message: String },
    Mtp { detail: String, exclusive_access: bool },
    Json(String),
    DaemonUnavailable,
    InvalidResponse(String),
    Disconnected,
    NotFound,
    Unsupported(String),
    Operation(String),
}

/// The text of an error in a language: the localized headline, followed by
/// the detail where the error carries one.
pub open spec fn error_text(error: Error, language: Language) -> Seq<char> {
    let strings = language.table();
    match error {
        Error::Io { message, .. } => strings.io_error@ + ": "@ + message@,
        Error::Mtp { detail, .. } => strings.mtp_error@ + ": "@ + detail@,
        Error::Json(detail) => strings.serialization_error@ + ": "@ + detail@,
        Error::DaemonUnavailable => strings.daemon_unavailable@,
        Error::InvalidResponse(detail) => strings.invalid_response@ + ": "@ + detail@,
        Error::Disconnected => strings.disconnected@,
        Error::NotFound => strings.not_found@,
        Error::Unsupported(detail) => strings.unsupported@ + ": "@ + detail@,
        Error::Operation(detail) => strings.operation_failed@ + ": "@ + detail@,
    }
}

fn headline_with(headline: &str, detail: &str) -> (r: String)
    ensures
        r@ == headline@ + ": "@ + detail@,
{
    let mut s = String::from_str(headline);
    s.append(": ");
    s.append(detail);
    s
}

impl Error {
    /// The error's text in `language`.
    pub fn describe(&self, language: Language) -> (r: String)
        ensures
            r@ == error_text(*self, language),
    {
        let strings = language.strings();
        match self {
            Error::Io { message, .. } => headline_with(strings.io_error, message.as_str()),
            Error::Mtp { detail, .. } => headline_with(strings.mtp_error, detail.as_str()),
            Error::Json(detail) => headline_with(strings.serialization_error, detail.as_str()),
            Error::DaemonUnavailable => String::from_str(strings.daemon_unavailable),
            Error::InvalidResponse(detail) => headline_with(
                strings.invalid_response,
                detail.as_str(),
            ),
            Error::Disconnected => String::from_str(strings.disconnected),
            Error::NotFound => String::from_str(strings.not_found),
            Error::Unsupported(detail) => headline_with(strings.unsupported, detail.as_str()),
            Error::Operation(detail) => headline_with(strings.operation_failed, detail.as_str()),
        }
    }
}

} // verus!
