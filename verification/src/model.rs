//! Values exchanged between the daemon, the command-line client and the app.
use crate::settings::AppSettings;
use vstd::prelude::*;

verus! {

/// A storage area exposed by an MTP device.
#[derive(Debug, Clone, PartialEq, Eq)]
pub struct StorageSummary {
    pub id: u64,
    pub name: String,
    pub total_bytes: u64,
    pub free_bytes: u64,
    pub writable: bool,
}

/// Information shown for a connected MTP device.
#[derive(Debug, Clone, PartialEq, Eq)]
pub struct DeviceSummary {
    pub key: String,
    pub manufacturer: String,
    pub model: String,
    pub serial: String,
    pub device_version: String,
    pub usb_speed: Option<String>,
    pub generation: u64,
    pub writable: bool,
    pub storages: Vec<StorageSummary>,
}

/// Current state of the NFS mount.
#[derive(Debug, Clone, PartialEq, Eq)]
pub enum MountState {
    Unmounted,
    Mounting,
    Mounted { path: String, port: u16 },
    Error { message: String },
}

impl Default for MountState {
    fn default() -> (r: Self)
        ensures
            r is Unmounted,
    {
        MountState::Unmounted
    }
}

/// Complete UI-facing daemon snapshot.
#[derive(Debug, Clone, PartialEq, Eq)]
pub struct ServiceSnapshot {
    pub version: String,
    pub mount: MountState,
    pub devices: Vec<DeviceSummary>,
    pub transfer_count: usize,
    pub last_error: Option<String>,
}

/// The version of MTPDrive that this library belongs to.
pub const VERSION: &'static str = "0.1.2";

impl ServiceSnapshot {
    /// The snapshot of a service that has just started: unmounted, with no
    /// devices, no transfers and no error.
    pub fn initial() -> (r: Self)
        ensures
            r.version@ == VERSION@,
            r.mount is Unmounted,
            r.devices@.len() == 0,
            r.transfer_count == 0,
            r.last_error is None,
    {
        ServiceSnapshot {
            version: String::from_str(VERSION),
            mount: MountState::Unmounted,
            devices: Vec::new(),
            transfer_count: 0,
            last_error: None,
        }
    }
}

/// Log severity shared between the daemon and the log viewer.
#[derive(Debug, Clone, Copy, PartialEq, Eq, Structural)]
pub enum LogLevel {
    Trace,
    Debug,
    Info,
    Warn,
    Error,
}

/// One structured log record.
#[derive(Debug, Clone, PartialEq, Eq)]
pub struct LogRecord {
    pub id: u64,
    pub unix_millis: i128,
    pub level: LogLevel,
    pub target: String,
    pub message: String,
}

/// A log record with its text as character sequences.
pub struct LogRecordView {
    pub id: u64,
    pub unix_millis: i128,
    pub level: LogLevel,
    pub target: Seq<char>,
    pub message: Seq<char>,
}

impl View for DeviceSummary {
    type V = DeviceSummary;

    open spec fn view(&self) -> DeviceSummary {
        *self
    }
}

impl View for LogRecord {
    type V = LogRecordView;

    open spec fn view(&self) -> LogRecordView {
        LogRecordView {
            id: self.id,
            unix_millis: self.unix_millis,
            level: self.level,
            target: self.target@,
            message: self.message@,
        }
    }
}

impl LogRecord {
    /// A copy of the record.
    pub fn duplicate(&self) -> (r: Self)
        ensures
            r == *self,
    {
        LogRecord {
            id: self.id,
            unix_millis: self.unix_millis,
            level: self.level,
            target: self.target.clone(),
            message: self.message.clone(),
        }
    }
}

/// Requests accepted by the daemon control socket.
#[derive(Debug, Clone, PartialEq, Eq)]
pub enum ControlRequest {
    Ping,
    Snapshot,
    Devices,
    Logs { after: u64, limit: usize },
    Settings,
    SetSettings { settings: AppSettings },
    Mount,
    Unmount,
    Open,
    Refresh,
    Shutdown,
}

/// Responses returned by the daemon.
#[derive(Debug, Clone, PartialEq, Eq)]
pub enum ControlResponse {
    Done,
    Pong { version: String },
    Snapshot(ServiceSnapshot),
    Devices(Vec<DeviceSummary>),
    Logs(Vec<LogRecord>),
    Settings(AppSettings),
    Error { message: String },
}

} // verus!
