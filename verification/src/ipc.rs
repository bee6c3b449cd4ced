//! The typed side of the daemon's control socket: which reply answers
//! which request, and how failures read.
use crate::error::{error_text, Error, IoErrorKind};
use crate::debug::response_text;
use crate::i18n::Language;
use crate::model::{ControlResponse, DeviceSummary, LogRecord, ServiceSnapshot};
use crate::settings::AppSettings;
use vstd::prelude::*;

verus! {

/// The client of the per-user daemon socket at `socket_path`.
#[derive(Debug, Clone)]
pub struct DaemonClient {
    socket_path: String,
}

impl DaemonClient {
    /// The path of the client's socket.
    pub closed spec fn path(&self) -> Seq<char> {
        self.socket_path@
    }

    /// A client of the socket at `socket_path`.
    pub fn new(socket_path: String) -> (r: Self)
        ensures
            r.path() == socket_path@,
    {
        DaemonClient { socket_path }
    }

    /// The path of the client's socket.
    pub fn socket_path(&self) -> (r: &str)
        ensures
            r@ == self.path(),
    {
        self.socket_path.as_str()
    }
}

/// Errors of typed daemon requests.
#[derive(Debug)]
pub enum DaemonRequestError {
    /// The request could not be made.
    Client(Error),
    /// The daemon answered with an error.
    Daemon(String),
    /// The daemon answered with a reply of the wrong kind.
    Unexpected(ControlResponse),
}

/// The error a failed connection gives: a missing or refusing socket means
/// the daemon is not running.
pub fn connect_error(kind: IoErrorKind, message: String) -> (r: Error)
    ensures
        r == (if kind == IoErrorKind::NotFound || kind == IoErrorKind::ConnectionRefused {
            Error::DaemonUnavailable
        } else {
            Error::Io { kind, message }
        }),
{
    match kind {
        IoErrorKind::NotFound | IoErrorKind::ConnectionRefused => Error::DaemonUnavailable,
        _ => Error::Io { kind, message },
    }
}

/// The error for a reply that is empty.
pub fn empty_response_error(language: Language) -> (r: Error)
    ensures
        r matches Error::InvalidResponse(detail) && detail@ == language.table().empty_response@,
{
    Error::InvalidResponse(String::from_str(language.strings().empty_response))
}

/// Whether a reply to a ping says the daemon runs.
pub fn is_pong(response: &ControlResponse) -> (r: bool)
    ensures
        r == (*response is Pong),
{
    match response {
        ControlResponse::Pong { .. } => true,
        _ => false,
    }
}

/// The snapshot a reply carries; a daemon error becomes an operation error,
/// and any other reply an invalid response.
pub fn snapshot_response(response: ControlResponse, language: Language) -> (r: Result<
    ServiceSnapshot,
    Error,
>)
    ensures
        match response {
            ControlResponse::Snapshot(snapshot) => r == Ok::<ServiceSnapshot, Error>(snapshot),
            ControlResponse::Error { message } => r == Err::<ServiceSnapshot, Error>(
                Error::Operation(message),
            ),
            _ => r matches Err(Error::InvalidResponse(detail)) && detail@
                == language.expected_snapshot_text(response_text(response)),
        },
{
    match response {
        ControlResponse::Snapshot(snapshot) => Ok(snapshot),
        ControlResponse::Error { message } => Err(Error::Operation(message)),
        other => {
            let shown = other.describe();
            Err(Error::InvalidResponse(language.expected_snapshot(shown.as_str())))
        },
    }
}

/// The devices a reply carries.
pub fn devices_response(response: ControlResponse) -> (r: Result<
    Vec<DeviceSummary>,
    DaemonRequestError,
>)
    ensures
        match response {
            ControlResponse::Devices(devices) => r == Ok::<
                Vec<DeviceSummary>,
                DaemonRequestError,
            >(devices),
            ControlResponse::Error { message } => r == Err::<
                Vec<DeviceSummary>,
                DaemonRequestError,
            >(DaemonRequestError::Daemon(message)),
            other => r == Err::<Vec<DeviceSummary>, DaemonRequestError>(
                DaemonRequestError::Unexpected(other),
            ),
        },
{
    match response {
        ControlResponse::Devices(devices) => Ok(devices),
        ControlResponse::Error { message } => Err(DaemonRequestError::Daemon(message)),
        other => Err(DaemonRequestError::Unexpected(other)),
    }
}

/// The log records a reply carries.
pub fn logs_response(response: ControlResponse) -> (r: Result<Vec<LogRecord>, DaemonRequestError>)
    ensures
        match response {
            ControlResponse::Logs(records) => r == Ok::<Vec<LogRecord>, DaemonRequestError>(
                records,
            ),
            ControlResponse::Error { message } => r == Err::<Vec<LogRecord>, DaemonRequestError>(
                DaemonRequestError::Daemon(message),
            ),
            other => r == Err::<Vec<LogRecord>, DaemonRequestError>(
                DaemonRequestError::Unexpected(other),
            ),
        },
{
    match response {
        ControlResponse::Logs(records) => Ok(records),
        ControlResponse::Error { message } => Err(DaemonRequestError::Daemon(message)),
        other => Err(DaemonRequestError::Unexpected(other)),
    }
}

/// The settings a reply carries.
pub fn settings_response(response: ControlResponse) -> (r: Result<AppSettings, DaemonRequestError>)
    ensures
        match response {
            ControlResponse::Settings(settings) => r == Ok::<AppSettings, DaemonRequestError>(
                settings,
            ),
            ControlResponse::Error { message } => r == Err::<AppSettings, DaemonRequestError>(
                DaemonRequestError::Daemon(message),
            ),
            other => r == Err::<AppSettings, DaemonRequestError>(
                DaemonRequestError::Unexpected(other),
            ),
        },
{
    match response {
        ControlResponse::Settings(settings) => Ok(settings),
        ControlResponse::Error { message } => Err(DaemonRequestError::Daemon(message)),
        other => Err(DaemonRequestError::Unexpected(other)),
    }
}

/// Whether a reply confirms a request that returns nothing.
pub fn done_response(response: ControlResponse) -> (r: Result<(), DaemonRequestError>)
    ensures
        match response {
            ControlResponse::Done => r == Ok::<(), DaemonRequestError>(()),
            ControlResponse::Error { message } => r == Err::<(), DaemonRequestError>(
                DaemonRequestError::Daemon(message),
            ),
            other => r == Err::<(), DaemonRequestError>(DaemonRequestError::Unexpected(other)),
        },
{
    match response {
        ControlResponse::Done => Ok(()),
        ControlResponse::Error { message } => Err(DaemonRequestError::Daemon(message)),
        other => Err(DaemonRequestError::Unexpected(other)),
    }
}

impl DaemonRequestError {
    /// The error's text in `language`.
    pub fn describe(&self, language: Language) -> (r: String)
        ensures
            match self {
                DaemonRequestError::Client(error) => r@ == error_text(*error, language),
                DaemonRequestError::Daemon(message) => r@ == message@,
                DaemonRequestError::Unexpected(response) => r@
                    == language.unexpected_daemon_response_text(response_text(*response)),
            },
    {
        match self {
            DaemonRequestError::Client(error) => error.describe(language),
            DaemonRequestError::Daemon(message) => message.clone(),
            DaemonRequestError::Unexpected(response) => {
                let shown = response.describe();
                language.unexpected_daemon_response(shown.as_str())
            },
        }
    }
}

} // verus!
