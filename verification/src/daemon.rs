//! The decisions of the daemon: how it answers control requests and what
//! each round of device discovery does.
use crate::model::{ControlResponse, DeviceSummary, MountState, ServiceSnapshot, VERSION};
use crate::settings::AppSettings;
use vstd::prelude::*;

verus! {

/// Daemon startup behaviour.
#[derive(Debug, Clone, Copy, PartialEq, Eq, Structural)]
pub struct DaemonOptions {
    /// Serve without mounting the volume.
    pub no_mount: bool,
    /// The NFS port; 0 picks a free one.
    pub port: u16,
    /// Open Finder when the first device appears.
    pub open_on_first_device: bool,
    /// The pause between device scans (milliseconds).
    pub scan_interval_ms: u64,
}

impl Default for DaemonOptions {
    fn default() -> (r: Self)
        ensures
            r == (DaemonOptions {
                no_mount: false,
                port: 0,
                open_on_first_device: true,
                scan_interval_ms: 2000,
            }),
    {
        DaemonOptions { no_mount: false, port: 0, open_on_first_device: true, scan_interval_ms: 2000 }
    }
}

/// The reply to a ping: the daemon's version.
pub fn pong() -> (r: ControlResponse)
    ensures
        r matches ControlResponse::Pong { version } && version@ == VERSION@,
{
    ControlResponse::Pong { version: String::from_str(VERSION) }
}

/// The reply to a request that returns nothing: done, or the error's text.
pub fn completion_response(result: Result<(), String>) -> (r: ControlResponse)
    ensures
        r == (match result {
            Ok(()) => ControlResponse::Done,
            Err(message) => ControlResponse::Error { message },
        }),
{
    match result {
        Ok(()) => ControlResponse::Done,
        Err(message) => ControlResponse::Error { message },
    }
}

/// The reply to new settings: the settings once they were saved, or the
/// error's text.
pub fn settings_reply(saved: Result<(), String>, settings: AppSettings) -> (r: ControlResponse)
    ensures
        r == (match saved {
            Ok(()) => ControlResponse::Settings(settings),
            Err(message) => ControlResponse::Error { message },
        }),
{
    match saved {
        Ok(()) => ControlResponse::Settings(settings),
        Err(message) => ControlResponse::Error { message },
    }
}

/// The reply to a rescan: the devices, or the error's text.
pub fn devices_reply(result: Result<Vec<DeviceSummary>, String>) -> (r: ControlResponse)
    ensures
        r == (match result {
            Ok(devices) => ControlResponse::Devices(devices),
            Err(message) => ControlResponse::Error { message },
        }),
{
    match result {
        Ok(devices) => ControlResponse::Devices(devices),
        Err(message) => ControlResponse::Error { message },
    }
}

/// The snapshot the daemon publishes: its version, the mount state, the
/// devices and the last error, with no transfer counted.
pub fn current_snapshot(mount: MountState, devices: Vec<DeviceSummary>, last_error: Option<String>) -> (r:
    ServiceSnapshot)
    ensures
        r.version@ == VERSION@,
        r.mount == mount,
        r.devices == devices,
        r.transfer_count == 0,
        r.last_error == last_error,
{
    ServiceSnapshot {
        version: String::from_str(VERSION),
        mount,
        devices,
        transfer_count: 0,
        last_error,
    }
}

/// What the discovery loop remembers between rounds.
#[derive(Debug, Clone, Copy, PartialEq, Eq, Structural)]
pub struct DiscoveryState {
    /// How many devices the last round found.
    pub previous_count: usize,
    /// Counts the rounds (wrapping).
    pub storage_tick: u32,
}

/// What one round of discovery does besides publishing the devices.
#[derive(Debug, Clone, Copy, PartialEq, Eq, Structural)]
pub struct DiscoveryActions {
    /// Upload the staged files that are still dirty.
    pub flush_dirty: bool,
    /// Reread the storages' capacities.
    pub refresh_storage_info: bool,
    /// Open the volume in Finder.
    pub open_finder: bool,
}

/// The tick of the next round.
pub open spec fn next_tick(tick: u32) -> u32 {
    if tick == u32::MAX {
        0
    } else {
        (tick + 1) as u32
    }
}

/// One round of discovery that found `device_count` devices: every fifth
/// round with devices uploads dirty staged files, every fifteenth rereads
/// the storages, and Finder opens when devices appear after none (when the
/// daemon and the settings allow it).
pub fn discovery_step(
    state: DiscoveryState,
    device_count: usize,
    open_on_first_device: bool,
    always_open_in_finder: bool,
) -> (r: (DiscoveryState, DiscoveryActions))
    ensures
        r.0 == (DiscoveryState {
            previous_count: device_count,
            storage_tick: next_tick(state.storage_tick),
        }),
        r.1 == (DiscoveryActions {
            flush_dirty: device_count > 0 && next_tick(state.storage_tick) % 5 == 0,
            refresh_storage_info: next_tick(state.storage_tick) % 15 == 0,
            open_finder: open_on_first_device && always_open_in_finder && state.previous_count
                == 0 && device_count > 0,
        }),
{
    let tick = state.storage_tick.wrapping_add(1);
    let actions = DiscoveryActions {
        flush_dirty: device_count > 0 && tick % 5 == 0,
        refresh_storage_info: tick % 15 == 0,
        open_finder: open_on_first_device && always_open_in_finder && state.previous_count == 0
            && device_count > 0,
    };
    (DiscoveryState { previous_count: device_count, storage_tick: tick }, actions)
}

} // verus!
