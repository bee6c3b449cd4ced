//! The state the menu-bar app keeps between messages: the update check and
//! download, the log records it shows, and the error line.
use crate::error::error_text;
use crate::i18n::Language;
use crate::debug::response_text;
use crate::ipc::DaemonRequestError;
use crate::format::{bytes_text, format_bytes};
use crate::model::{ControlResponse, DeviceSummary, LogRecord, ServiceSnapshot, StorageSummary};
use crate::release::{ReleaseAsset, ReleaseCheck};
use crate::ui::{is_service_error, mentions_service};
use vstd::prelude::*;

verus! {

/// The pages of the app window.
#[derive(Debug, Clone, Copy, PartialEq, Eq, Structural)]
pub enum Page {
    Devices,
    Logs,
    Settings,
}

/// Where the update check and download stand.
#[derive(Debug, Clone, PartialEq, Eq)]
pub enum UpdateState {
    Idle,
    Checking,
    UpToDate,
    CheckFailed(String),
    Downloading { version: String, asset: ReleaseAsset, downloaded: u64 },
    Verifying { version: String, asset: ReleaseAsset },
    /// The downloaded image, at this path.
    Downloaded(String),
    DownloadFailed { version: String, asset: ReleaseAsset, error: String },
}

impl Default for UpdateState {
    fn default() -> (r: Self)
        ensures
            r == UpdateState::Idle,
    {
        UpdateState::Idle
    }
}

/// What happens to the update check and download.
#[derive(Debug, PartialEq, Eq)]
pub enum UpdateEvent {
    /// The user asked for a check.
    CheckRequested,
    /// The check ended.
    Checked(Result<ReleaseCheck, String>),
    /// The user asked to download (again) a version's file.
    DownloadRequested { version: String, asset: ReleaseAsset },
    /// This many bytes have arrived.
    Progress(u64),
    /// The file is complete and being verified.
    Verifying,
    /// The download ended: the path of the image, or the error.
    Finished(Result<String, String>),
}

/// The work an update event starts.
#[derive(Debug, Clone, PartialEq, Eq)]
pub enum UpdateAction {
    Nothing,
    /// Ask for the latest release.
    Check,
    /// Download this file.
    Download(ReleaseAsset),
}

/// The error shown when a newer release offers no file.
pub const NO_DOWNLOADABLE_DMG: &'static str = "the release does not contain a downloadable DMG";

/// The next state of the update check and download, and the work it starts:
/// a check starts checking; a newer release with a file starts its download
/// (one without a file fails the check); progress and verification move a
/// download on; the end of a download leaves the image, or a failure that
/// keeps the version and file for a retry.
pub fn update_step(state: UpdateState, event: UpdateEvent) -> (r: (UpdateState, UpdateAction))
    ensures
        match event {
            UpdateEvent::CheckRequested => r == (UpdateState::Checking, UpdateAction::Check),
            UpdateEvent::Checked(Ok(release)) => if release.update_available {
                match release.asset {
                    Some(asset) => r == (
                        UpdateState::Downloading {
                            version: release.latest_version,
                            asset,
                            downloaded: 0,
                        },
                        UpdateAction::Download(asset),
                    ),
                    None => r.1 == UpdateAction::Nothing && (r.0 matches UpdateState::CheckFailed(m)
                        && m@ == NO_DOWNLOADABLE_DMG@),
                }
            } else {
                r == (UpdateState::UpToDate, UpdateAction::Nothing)
            },
            UpdateEvent::Checked(Err(error)) => r == (
                UpdateState::CheckFailed(error),
                UpdateAction::Nothing,
            ),
            UpdateEvent::DownloadRequested { version, asset } => r == (
                UpdateState::Downloading { version, asset, downloaded: 0 },
                UpdateAction::Download(asset),
            ),
            UpdateEvent::Progress(bytes) => r.1 == UpdateAction::Nothing && r.0 == (match state {
                UpdateState::Downloading { version, asset, .. } => UpdateState::Downloading {
                    version,
                    asset,
                    downloaded: bytes,
                },
                other => other,
            }),
            UpdateEvent::Verifying => r.1 == UpdateAction::Nothing && r.0 == (match state {
                UpdateState::Downloading { version, asset, .. } => UpdateState::Verifying {
                    version,
                    asset,
                },
                other => other,
            }),
            UpdateEvent::Finished(Ok(path)) => r == (
                UpdateState::Downloaded(path),
                UpdateAction::Nothing,
            ),
            UpdateEvent::Finished(Err(error)) => r.1 == UpdateAction::Nothing && r.0 == (
            match state {
                UpdateState::Downloading { version, asset, .. } => UpdateState::DownloadFailed {
                    version,
                    asset,
                    error,
                },
                UpdateState::Verifying { version, asset } => UpdateState::DownloadFailed {
                    version,
                    asset,
                    error,
                },
                _ => UpdateState::CheckFailed(error),
            }),
        },
{
    match event {
        UpdateEvent::CheckRequested => (UpdateState::Checking, UpdateAction::Check),
        UpdateEvent::Checked(Ok(release)) => {
            if release.update_available {
                match release.asset {
                    Some(asset) => {
                        let download = asset.duplicate();
                        (
                            UpdateState::Downloading {
                                version: release.latest_version,
                                asset,
                                downloaded: 0,
                            },
                            UpdateAction::Download(download),
                        )
                    },
                    None => {
                        proof {
                            reveal_strlit("the release does not contain a downloadable DMG");
                        }
                        (
                            UpdateState::CheckFailed(String::from_str(NO_DOWNLOADABLE_DMG)),
                            UpdateAction::Nothing,
                        )
                    },
                }
            } else {
                (UpdateState::UpToDate, UpdateAction::Nothing)
            }
        },
        UpdateEvent::Checked(Err(error)) => (UpdateState::CheckFailed(error), UpdateAction::Nothing),
        UpdateEvent::DownloadRequested { version, asset } => {
            let download = asset.duplicate();
            (UpdateState::Downloading { version, asset, downloaded: 0 }, UpdateAction::Download(download))
        },
        UpdateEvent::Progress(bytes) => {
            let next = match state {
                UpdateState::Downloading { version, asset, .. } => UpdateState::Downloading {
                    version,
                    asset,
                    downloaded: bytes,
                },
                other => other,
            };
            (next, UpdateAction::Nothing)
        },
        UpdateEvent::Verifying => {
            let next = match state {
                UpdateState::Downloading { version, asset, .. } => UpdateState::Verifying {
                    version,
                    asset,
                },
                other => other,
            };
            (next, UpdateAction::Nothing)
        },
        UpdateEvent::Finished(Ok(path)) => (UpdateState::Downloaded(path), UpdateAction::Nothing),
        UpdateEvent::Finished(Err(error)) => {
            let next = match state {
                UpdateState::Downloading { version, asset, .. } => UpdateState::DownloadFailed {
                    version,
                    asset,
                    error,
                },
                UpdateState::Verifying { version, asset } => UpdateState::DownloadFailed {
                    version,
                    asset,
                    error,
                },
                _ => UpdateState::CheckFailed(error),
            };
            (next, UpdateAction::Nothing)
        },
    }
}

/// How many log records the app keeps.
pub const SHOWN_LOG_LIMIT: usize = 10_000;

/// The records of `records` that are newer than `last` and than every
/// record before them, in order, and the newest id seen.
pub open spec fn newer_records(last: u64, records: Seq<LogRecord>) -> (Seq<LogRecord>, u64)
    decreases records.len(),
{
    if records.len() == 0 {
        (Seq::empty(), last)
    } else {
        let before = newer_records(last, records.drop_last());
        let record = records.last();
        if record.id > before.1 {
            (before.0.push(record), record.id)
        } else {
            before
        }
    }
}

/// The newest `SHOWN_LOG_LIMIT` records of `logs`.
pub open spec fn newest_shown(logs: Seq<LogRecord>) -> Seq<LogRecord> {
    if logs.len() > SHOWN_LOG_LIMIT {
        logs.subrange(logs.len() - SHOWN_LOG_LIMIT, logs.len() as int)
    } else {
        logs
    }
}

/// Appends the polled records that are newer than the newest one shown
/// (`last_log_id`), keeps the newest `SHOWN_LOG_LIMIT`, and returns the
/// newest id now seen.
pub fn merge_log_records(logs: &mut Vec<LogRecord>, last_log_id: u64, records: Vec<LogRecord>) -> (r:
    u64)
    ensures
        final(logs)@ == newest_shown(old(logs)@ + newer_records(last_log_id, records@).0),
        r == newer_records(last_log_id, records@).1,
{
    let ghost start = logs@;
    let mut last = last_log_id;
    let mut i: usize = 0;
    while i < records.len()
        invariant
            i <= records@.len(),
            logs@ == start + newer_records(last_log_id, records@.subrange(0, i as int)).0,
            last == newer_records(last_log_id, records@.subrange(0, i as int)).1,
        decreases records.len() - i,
    {
        proof {
            assert(records@.subrange(0, i + 1).drop_last() =~= records@.subrange(0, i as int));
            assert(records@.subrange(0, i + 1).last() == records@[i as int]);
        }
        if records[i].id > last {
            last = records[i].id;
            logs.push(records[i].duplicate());
        }
        i = i + 1;
    }
    proof {
        assert(records@.subrange(0, records@.len() as int) =~= records@);
    }
    if logs.len() > SHOWN_LOG_LIMIT {
        let remove = logs.len() - SHOWN_LOG_LIMIT;
        let kept = logs.split_off(remove);
        *logs = kept;
    }
    last
}

/// Whether ids increase along `logs` and none is above `last`.
pub open spec fn ordered_up_to(logs: Seq<LogRecord>, last: u64) -> bool {
    &&& forall|i: int, j: int| 0 <= i < j < logs.len() ==> logs[i].id < logs[j].id
    &&& forall|i: int| 0 <= i < logs.len() ==> logs[i].id <= last
}

proof fn lemma_newer_records_ordered(last: u64, records: Seq<LogRecord>)
    ensures
        last <= newer_records(last, records).1,
        ordered_up_to(newer_records(last, records).0, newer_records(last, records).1),
        forall|i: int|
            0 <= i < newer_records(last, records).0.len() ==> last < #[trigger] newer_records(
                last,
                records,
            ).0[i].id,
    decreases records.len(),
{
    if records.len() > 0 {
        lemma_newer_records_ordered(last, records.drop_last());
    }
}

/// The log the app shows stays in id order, with no record newer than the
/// newest id it remembers, and never longer than its limit: merging a poll
/// into such a log keeps it so.
pub proof fn law_shown_logs_stay_ordered(logs: Seq<LogRecord>, last: u64, records: Seq<LogRecord>)
    requires
        ordered_up_to(logs, last),
    ensures
        ({
            let (added, newest) = newer_records(last, records);
            let shown = newest_shown(logs + added);
            &&& ordered_up_to(shown, newest)
            &&& shown.len() <= SHOWN_LOG_LIMIT
            &&& last <= newest
        }),
{
    lemma_newer_records_ordered(last, records);
    let (added, newest) = newer_records(last, records);
    let all = logs + added;
    assert(ordered_up_to(all, newest)) by {
        assert forall|i: int, j: int| 0 <= i < j < all.len() implies all[i].id < all[j].id by {
            if j >= logs.len() && i < logs.len() {
                assert(all[j] == added[j - logs.len()]);
            }
        }
    }
}

/// The snapshot and error the app shows after a poll: a new snapshot
/// replaces the old one and clears an error about the background service;
/// a failed poll keeps the snapshot and shows its error.
pub fn apply_service_result(
    snapshot: &mut ServiceSnapshot,
    error: &mut Option<String>,
    result: Result<ServiceSnapshot, String>,
)
    ensures
        match result {
            Ok(s) => *final(snapshot) == s && *final(error) == (if *old(error) matches Some(e)
                && mentions_service(e@) {
                None
            } else {
                *old(error)
            }),
            Err(e) => *final(snapshot) == *old(snapshot) && *final(error) == Some(e),
        },
{
    match result {
        Ok(s) => {
            *snapshot = s;
            let clear = match error {
                Some(e) => is_service_error(e.as_str()),
                None => false,
            };
            if clear {
                *error = None;
            }
        },
        Err(e) => {
            *error = Some(e);
        },
    }
}

/// The error line the logs page shows when fetching records fails: a
/// reply of the wrong kind is reported as an invalid log response, other
/// errors by their own text.
pub fn format_log_error(error: &DaemonRequestError, language: Language) -> (r: String)
    ensures
        match error {
            DaemonRequestError::Client(e) => r@ == error_text(*e, language),
            DaemonRequestError::Daemon(message) => r@ == message@,
            DaemonRequestError::Unexpected(response) => r@ == (match language {
                Language::English => "Invalid background log response: "@ + response_text(
                    *response,
                ),
                Language::SimplifiedChinese => "后台日志响应无效："@ + response_text(*response),
            }),
        },
{
    match error {
        DaemonRequestError::Unexpected(response) => {
            let shown = response.describe();
            language.invalid_log_response(shown.as_str())
        },
        other => other.describe(language),
    }
}

/// The error the app shows after a control request: the daemon's or the
/// transport's message, or none when the request succeeded.
pub fn error_after_control(result: Result<ControlResponse, String>) -> (r: Option<String>)
    ensures
        r == (match result {
            Ok(ControlResponse::Error { message }) => Some(message),
            Ok(_) => None,
            Err(message) => Some(message),
        }),
{
    match result {
        Ok(ControlResponse::Error { message }) => Some(message),
        Ok(_) => None,
        Err(message) => Some(message),
    }
}

/// Whether any device has a storage (the devices page then shows a
/// progress bar).
pub open spec fn has_storages(devices: Seq<DeviceSummary>) -> bool {
    exists|i: int| 0 <= i < devices.len() && (#[trigger] devices[i]).storages@.len() > 0
}

/// Whether the page shows an animated progress bar: the devices page while
/// a device has storages, the settings page while an update is checked,
/// downloaded or verified.
pub fn progress_visible(page: Page, devices: &Vec<DeviceSummary>, state: &UpdateState) -> (r: bool)
    ensures
        r == ((page == Page::Devices && has_storages(devices@)) || (page == Page::Settings && (
        *state is Checking || *state is Downloading || *state is Verifying))),
{
    match page {
        Page::Devices => {
            let mut i: usize = 0;
            while i < devices.len()
                invariant
                    page == Page::Devices,
                    i <= devices@.len(),
                    forall|k: int| 0 <= k < i ==> devices@[k].storages@.len() == 0,
                decreases devices.len() - i,
            {
                if devices[i].storages.len() > 0 {
                    proof {
                        assert(devices@[i as int].storages@.len() > 0);
                        assert(has_storages(devices@));
                    }
                    return true;
                }
                i = i + 1;
            }
            false
        },
        Page::Logs => false,
        Page::Settings => match state {
            UpdateState::Checking | UpdateState::Downloading { .. } | UpdateState::Verifying {
                ..
            } => true,
            _ => false,
        },
    }
}


/// The texts of a device card: its title, its detail line, and the name
/// and capacity line of each storage.
pub struct DeviceCardText {
    pub title: String,
    pub details: String,
    pub storages: Vec<(String, String)>,
}

/// The capacity line of a storage: its free and total bytes.
pub open spec fn capacity_line(language: Language, storage: StorageSummary) -> Seq<char> {
    language.storage_capacity_text(
        bytes_text(storage.free_bytes as nat),
        bytes_text(storage.total_bytes as nat),
    )
}

/// The texts of the card of `device`: manufacturer and model; serial, USB
/// speed (or "unknown") and access; each storage's name and capacity.
pub fn device_card_text(language: Language, device: &DeviceSummary) -> (r: DeviceCardText)
    ensures
        r.title@ == device.manufacturer@ + " "@ + device.model@,
        r.details@ == language.device_details_text(
            device.serial@,
            match device.usb_speed {
                Some(speed) => speed@,
                None => language.table().unknown@,
            },
            device.writable,
        ),
        r.storages@.len() == device.storages@.len(),
        forall|i: int|
            0 <= i < r.storages@.len() ==> {
                &&& (#[trigger] r.storages@[i]).0@ == device.storages@[i].name@
                &&& r.storages@[i].1@ == capacity_line(language, device.storages@[i])
            },
{
    let mut title = device.manufacturer.clone();
    title.append(" ");
    title.append(device.model.as_str());
    let strings = language.strings();
    let usb: &str = match &device.usb_speed {
        Some(speed) => speed.as_str(),
        None => strings.unknown,
    };
    let details = language.device_details(device.serial.as_str(), usb, device.writable);
    let mut storages: Vec<(String, String)> = Vec::new();
    let mut i: usize = 0;
    while i < device.storages.len()
        invariant
            i <= device.storages@.len(),
            storages@.len() == i,
            forall|j: int|
                0 <= j < i ==> {
                    &&& (#[trigger] storages@[j]).0@ == device.storages@[j].name@
                    &&& storages@[j].1@ == capacity_line(language, device.storages@[j])
                },
        decreases device.storages.len() - i,
    {
        let storage = &device.storages[i];
        let free = format_bytes(storage.free_bytes);
        let total = format_bytes(storage.total_bytes);
        let line = language.storage_capacity(free.as_str(), total.as_str());
        storages.push((storage.name.clone(), line));
        i = i + 1;
    }
    DeviceCardText { title, details, storages }
}

/// What the about card shows beside the update message: nothing, a
/// loading indicator, or the download's progress bar.
#[derive(Debug, Clone, Copy, PartialEq, Eq, Structural)]
pub enum UpdateIndicator {
    Nothing,
    Loading,
    Progress,
}

/// The button of the about card.
#[derive(Debug, Clone, Copy, PartialEq, Eq, Structural)]
pub enum UpdateButton {
    Nothing,
    /// "Check for updates", prominent while nothing was checked yet.
    Check { prominent: bool },
    /// "Retry download" after a failed download.
    Retry,
}

/// The update part of the about card.
pub struct UpdateSection {
    pub message: Option<String>,
    pub indicator: UpdateIndicator,
    pub button: UpdateButton,
}

/// The update part of the about card for `state`; `percent` is the
/// download's progress as the app rounds it for display.
pub fn update_section(language: Language, state: &UpdateState, percent: &str) -> (r: UpdateSection)
    ensures
        match state {
            UpdateState::Idle => r.message is None && r.indicator == UpdateIndicator::Nothing
                && r.button == (UpdateButton::Check { prominent: true }),
            UpdateState::Checking => r.message matches Some(m) && m@
                == language.table().checking_for_updates@ && r.indicator == UpdateIndicator::Loading
                && r.button == UpdateButton::Nothing,
            UpdateState::UpToDate => r.message matches Some(m) && m@
                == language.table().up_to_date@ && r.indicator == UpdateIndicator::Nothing
                && r.button == (UpdateButton::Check { prominent: false }),
            UpdateState::CheckFailed(error) => r.message matches Some(m) && m@
                == language.update_check_failed_text(error@) && r.indicator
                == UpdateIndicator::Nothing && r.button == (UpdateButton::Check { prominent: false }),
            UpdateState::Downloading { asset, downloaded, .. } => r.message matches Some(m) && m@
                == language.downloading_update_text(*downloaded, asset.size, percent@)
                && r.indicator == UpdateIndicator::Progress && r.button == UpdateButton::Nothing,
            UpdateState::Verifying { .. } => r.message matches Some(m) && m@
                == language.table().verifying_update@ && r.indicator == UpdateIndicator::Loading
                && r.button == UpdateButton::Nothing,
            UpdateState::Downloaded(path) => r.message matches Some(m) && m@
                == language.update_downloaded_text(path@) && r.indicator == UpdateIndicator::Nothing
                && r.button == (UpdateButton::Check { prominent: false }),
            UpdateState::DownloadFailed { error, .. } => r.message matches Some(m) && m@
                == language.update_download_failed_text(error@) && r.indicator
                == UpdateIndicator::Nothing && r.button == UpdateButton::Retry,
        },
{
    let strings = language.strings();
    match state {
        UpdateState::Idle => UpdateSection {
            message: None,
            indicator: UpdateIndicator::Nothing,
            button: UpdateButton::Check { prominent: true },
        },
        UpdateState::Checking => UpdateSection {
            message: Some(String::from_str(strings.checking_for_updates)),
            indicator: UpdateIndicator::Loading,
            button: UpdateButton::Nothing,
        },
        UpdateState::UpToDate => UpdateSection {
            message: Some(String::from_str(strings.up_to_date)),
            indicator: UpdateIndicator::Nothing,
            button: UpdateButton::Check { prominent: false },
        },
        UpdateState::CheckFailed(error) => UpdateSection {
            message: Some(language.update_check_failed(error.as_str())),
            indicator: UpdateIndicator::Nothing,
            button: UpdateButton::Check { prominent: false },
        },
        UpdateState::Downloading { asset, downloaded, .. } => UpdateSection {
            message: Some(language.downloading_update(*downloaded, asset.size, percent)),
            indicator: UpdateIndicator::Progress,
            button: UpdateButton::Nothing,
        },
        UpdateState::Verifying { .. } => UpdateSection {
            message: Some(String::from_str(strings.verifying_update)),
            indicator: UpdateIndicator::Loading,
            button: UpdateButton::Nothing,
        },
        UpdateState::Downloaded(path) => UpdateSection {
            message: Some(language.update_downloaded(path.as_str())),
            indicator: UpdateIndicator::Nothing,
            button: UpdateButton::Check { prominent: false },
        },
        UpdateState::DownloadFailed { error, .. } => UpdateSection {
            message: Some(language.update_download_failed(error.as_str())),
            indicator: UpdateIndicator::Nothing,
            button: UpdateButton::Retry,
        },
    }
}

} // verus!
