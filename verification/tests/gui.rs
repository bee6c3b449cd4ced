use mtpdrive_core::gui::{
    apply_service_result, device_card_text, error_after_control, format_log_error,
    update_section, UpdateButton, UpdateIndicator, merge_log_records, progress_visible, update_step,
    Page, UpdateAction, UpdateEvent, UpdateState, NO_DOWNLOADABLE_DMG, SHOWN_LOG_LIMIT,
};
use mtpdrive_core::model::{ControlResponse, DeviceSummary, LogLevel, LogRecord, ServiceSnapshot, StorageSummary, MountState};
use mtpdrive_core::release::{ReleaseAsset, ReleaseCheck};
use mtpdrive_core::i18n::Language;
use mtpdrive_core::ipc::DaemonRequestError;
use mtpdrive_core::error::Error;

fn asset() -> ReleaseAsset {
    ReleaseAsset {
        name: "MTPDrive.dmg".to_owned(),
        url: "https://github.com/moeleak/mtpdrive/releases/download/v2.0.0/MTPDrive.dmg".to_owned(),
        size: 10,
    }
}

fn downloading(bytes: u64) -> UpdateState {
    UpdateState::Downloading { version: "2.0.0".to_owned(), asset: asset(), downloaded: bytes }
}

#[test]
fn a_newer_release_starts_its_download() {
    assert_eq!(
        update_step(UpdateState::Idle, UpdateEvent::CheckRequested),
        (UpdateState::Checking, UpdateAction::Check)
    );
    let release = ReleaseCheck {
        latest_version: "2.0.0".to_owned(),
        update_available: true,
        asset: Some(asset()),
    };
    assert_eq!(
        update_step(UpdateState::Checking, UpdateEvent::Checked(Ok(release))),
        (downloading(0), UpdateAction::Download(asset()))
    );
    let without_file = ReleaseCheck { latest_version: "2.0.0".to_owned(), update_available: true, asset: None };
    assert_eq!(
        update_step(UpdateState::Checking, UpdateEvent::Checked(Ok(without_file))).0,
        UpdateState::CheckFailed(NO_DOWNLOADABLE_DMG.to_owned())
    );
    let current = ReleaseCheck { latest_version: "1.0.0".to_owned(), update_available: false, asset: None };
    assert_eq!(
        update_step(UpdateState::Checking, UpdateEvent::Checked(Ok(current))),
        (UpdateState::UpToDate, UpdateAction::Nothing)
    );
    assert_eq!(
        update_step(UpdateState::Checking, UpdateEvent::Checked(Err("offline".to_owned()))).0,
        UpdateState::CheckFailed("offline".to_owned())
    );
}

#[test]
fn downloads_move_through_progress_and_verification() {
    assert_eq!(update_step(downloading(0), UpdateEvent::Progress(5)).0, downloading(5));
    assert_eq!(update_step(UpdateState::Idle, UpdateEvent::Progress(5)).0, UpdateState::Idle);
    let verifying = update_step(downloading(10), UpdateEvent::Verifying).0;
    assert_eq!(verifying, UpdateState::Verifying { version: "2.0.0".to_owned(), asset: asset() });
    assert_eq!(
        update_step(verifying, UpdateEvent::Finished(Err("bad image".to_owned()))).0,
        UpdateState::DownloadFailed {
            version: "2.0.0".to_owned(),
            asset: asset(),
            error: "bad image".to_owned()
        }
    );
    assert_eq!(
        update_step(downloading(10), UpdateEvent::Finished(Ok("/tmp/MTPDrive.dmg".to_owned()))).0,
        UpdateState::Downloaded("/tmp/MTPDrive.dmg".to_owned())
    );
    assert_eq!(
        update_step(UpdateState::Idle, UpdateEvent::Finished(Err("x".to_owned()))).0,
        UpdateState::CheckFailed("x".to_owned())
    );
    assert_eq!(
        update_step(
            UpdateState::UpToDate,
            UpdateEvent::DownloadRequested { version: "2.0.0".to_owned(), asset: asset() }
        ),
        (downloading(0), UpdateAction::Download(asset()))
    );
}

fn record(id: u64) -> LogRecord {
    LogRecord { id, unix_millis: 0, level: LogLevel::Info, target: "t".to_owned(), message: format!("m{id}") }
}

#[test]
fn only_newer_log_records_are_shown_and_old_ones_drop() {
    let mut logs = vec![record(1), record(2)];
    let last = merge_log_records(&mut logs, 2, vec![record(2), record(5), record(3), record(6)]);
    assert_eq!(last, 6);
    let ids: Vec<u64> = logs.iter().map(|r| r.id).collect();
    assert_eq!(ids, vec![1, 2, 5, 6]);

    let mut many: Vec<LogRecord> = (1..=SHOWN_LOG_LIMIT as u64).map(record).collect();
    let last = merge_log_records(&mut many, SHOWN_LOG_LIMIT as u64, vec![record(20_000), record(20_001)]);
    assert_eq!(last, 20_001);
    assert_eq!(many.len(), SHOWN_LOG_LIMIT);
    assert_eq!(many[0].id, 3);
    assert_eq!(many[SHOWN_LOG_LIMIT - 1].id, 20_001);
}

fn snapshot(version: &str) -> ServiceSnapshot {
    ServiceSnapshot {
        version: version.to_owned(),
        mount: MountState::Unmounted,
        devices: vec![],
        transfer_count: 0,
        last_error: None,
    }
}

#[test]
fn a_new_snapshot_clears_only_service_errors() {
    let mut shown = snapshot("1");
    let mut error = Some("the daemon is not running".to_owned());
    apply_service_result(&mut shown, &mut error, Ok(snapshot("2")));
    assert_eq!(shown.version, "2");
    assert_eq!(error, None);

    let mut error = Some("USB unavailable".to_owned());
    apply_service_result(&mut shown, &mut error, Ok(snapshot("3")));
    assert_eq!(error.as_deref(), Some("USB unavailable"));

    apply_service_result(&mut shown, &mut error, Err("socket closed".to_owned()));
    assert_eq!(shown.version, "3");
    assert_eq!(error.as_deref(), Some("socket closed"));
}

#[test]
fn control_replies_set_or_clear_the_error() {
    assert_eq!(error_after_control(Ok(ControlResponse::Done)), None);
    assert_eq!(
        error_after_control(Ok(ControlResponse::Error { message: "mount failed".to_owned() })),
        Some("mount failed".to_owned())
    );
    assert_eq!(error_after_control(Err("gone".to_owned())), Some("gone".to_owned()));
}

#[test]
fn progress_bars_show_while_there_is_something_to_show() {
    let device = DeviceSummary {
        key: "k".to_owned(),
        manufacturer: "m".to_owned(),
        model: "p".to_owned(),
        serial: "s".to_owned(),
        device_version: "1".to_owned(),
        usb_speed: None,
        generation: 1,
        writable: true,
        storages: vec![StorageSummary { id: 1, name: "s".to_owned(), total_bytes: 1, free_bytes: 1, writable: true }],
    };
    let mut empty = device.clone();
    empty.storages.clear();
    assert!(progress_visible(Page::Devices, &vec![empty.clone(), device.clone()], &UpdateState::Idle));
    assert!(!progress_visible(Page::Devices, &vec![empty], &UpdateState::Checking));
    assert!(progress_visible(Page::Settings, &vec![], &UpdateState::Checking));
    assert!(progress_visible(Page::Settings, &vec![], &downloading(1)));
    assert!(!progress_visible(Page::Settings, &vec![device.clone()], &UpdateState::UpToDate));
    assert!(!progress_visible(Page::Logs, &vec![device], &UpdateState::Checking));
}

#[test]
fn log_fetch_errors_name_an_invalid_log_response() {
    assert_eq!(
        format_log_error(&DaemonRequestError::Unexpected(ControlResponse::Done), Language::English),
        "Invalid background log response: Ok"
    );
    assert_eq!(
        format_log_error(&DaemonRequestError::Daemon("busy".to_owned()), Language::English),
        "busy"
    );
    assert_eq!(
        format_log_error(&DaemonRequestError::Client(Error::DaemonUnavailable), Language::English),
        Error::DaemonUnavailable.describe(Language::English)
    );
}

#[test]
fn device_cards_show_details_and_capacities() {
    let device = DeviceSummary {
        key: "k".to_owned(),
        manufacturer: "Google".to_owned(),
        model: "Pixel 8".to_owned(),
        serial: "ABC".to_owned(),
        device_version: "1".to_owned(),
        usb_speed: None,
        generation: 1,
        writable: true,
        storages: vec![StorageSummary {
            id: 1,
            name: "Internal shared storage".to_owned(),
            total_bytes: 2048,
            free_bytes: 1024,
            writable: true,
        }],
    };
    let card = device_card_text(Language::English, &device);
    assert_eq!(card.title, "Google Pixel 8");
    assert_eq!(
        card.details,
        Language::English.device_details("ABC", Language::English.strings().unknown, true)
    );
    assert_eq!(
        card.storages,
        vec![("Internal shared storage".to_owned(), "1.0 KiB available of 2.0 KiB".to_owned())]
    );
}

#[test]
fn the_about_card_follows_the_update_state() {
    let en = Language::English;
    let idle = update_section(en, &UpdateState::Idle, "0");
    assert_eq!(idle.message, None);
    assert_eq!(idle.button, UpdateButton::Check { prominent: true });
    let checking = update_section(en, &UpdateState::Checking, "0");
    assert_eq!(checking.indicator, UpdateIndicator::Loading);
    assert_eq!(checking.button, UpdateButton::Nothing);
    let downloading = update_section(
        en,
        &UpdateState::Downloading { version: "2.0.0".to_owned(), asset: asset(), downloaded: 5 },
        "50",
    );
    assert_eq!(downloading.indicator, UpdateIndicator::Progress);
    assert_eq!(downloading.message, Some(en.downloading_update(5, 10, "50")));
    let failed = update_section(
        en,
        &UpdateState::DownloadFailed { version: "2.0.0".to_owned(), asset: asset(), error: "e".to_owned() },
        "0",
    );
    assert_eq!(failed.message.as_deref(), Some("Could not download or open the update: e"));
    assert_eq!(failed.button, UpdateButton::Retry);
    let done = update_section(en, &UpdateState::Downloaded("/tmp/a.dmg".to_owned()), "0");
    assert_eq!(done.message.as_deref(), Some("Downloaded and opened /tmp/a.dmg"));
    assert_eq!(done.button, UpdateButton::Check { prominent: false });
}
