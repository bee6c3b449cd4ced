use mtpdrive_core::i18n::Language;
use mtpdrive_core::model::{DeviceSummary, LogLevel, LogRecord, MountState, ServiceSnapshot, StorageSummary};
use mtpdrive_core::output::{devices_text, level_text, localized_bool, log_line, next_log_cursor, status_text};

#[test]
fn status_output_preserves_the_existing_text_format() {
    let snapshot = ServiceSnapshot {
        version: "0.1.2".to_owned(),
        mount: MountState::Mounted {
            path: "/Users/example/MTPDrive".to_owned(),
            port: 51_896,
        },
        devices: Vec::new(),
        transfer_count: 0,
        last_error: Some("USB unavailable".to_owned()),
    };

    assert_eq!(
        status_text(Language::English, &snapshot),
        "MTPDrive 0.1.2\nMount: Mounted at /Users/example/MTPDrive\nDevices: 0\nLast error: USB unavailable\n"
    );
}

fn pixel() -> DeviceSummary {
    DeviceSummary {
        key: "device".to_owned(),
        manufacturer: "Google".to_owned(),
        model: "Pixel".to_owned(),
        serial: "ABC".to_owned(),
        device_version: "1".to_owned(),
        usb_speed: None,
        generation: 1,
        writable: true,
        storages: vec![StorageSummary {
            id: 1,
            name: "Internal storage".to_owned(),
            total_bytes: 2 * 1024 * 1024,
            free_bytes: 1024,
            writable: false,
        }],
    }
}

#[test]
fn device_output_preserves_storage_indentation_and_units() {
    assert_eq!(
        devices_text(Language::English, &vec![pixel()]),
        "Google Pixel  serial=ABC  writable=yes\n  Internal storage  free=1.0 KiB  total=2.0 MiB  writable=no\n"
    );
}

#[test]
fn no_devices_and_no_error_have_their_own_lines() {
    let snapshot = ServiceSnapshot {
        version: "0.1.2".to_owned(),
        mount: MountState::Unmounted,
        devices: vec![pixel()],
        transfer_count: 0,
        last_error: None,
    };
    let text = status_text(Language::English, &snapshot);
    assert!(text.starts_with("MTPDrive 0.1.2\nMount: "));
    assert!(text.contains("Devices: 1\n"));
    assert!(!text.contains("Last error"));
    assert_eq!(devices_text(Language::English, &vec![]), "No MTP devices connected.\n");
}

#[test]
fn log_lines_pad_the_target() {
    let record = LogRecord {
        id: 7,
        unix_millis: 123,
        level: LogLevel::Info,
        target: "mtp".to_owned(),
        message: "connected".to_owned(),
    };
    assert_eq!(log_line(&record), "123 Info mtp        connected\n");
    let negative = LogRecord { unix_millis: -5, target: "averylongtarget".to_owned(), ..record };
    assert_eq!(log_line(&negative), "-5 Info averylongtarget connected\n");
    assert_eq!(level_text(LogLevel::Warn), "Warn");
    assert_eq!(localized_bool(Language::English, true), "yes");
}

#[test]
fn log_readers_continue_after_the_newest_record() {
    let record = |id| LogRecord {
        id,
        unix_millis: 0,
        level: LogLevel::Info,
        target: "t".to_owned(),
        message: "m".to_owned(),
    };
    assert_eq!(next_log_cursor(3, &vec![record(5), record(4)]), 5);
    assert_eq!(next_log_cursor(9, &vec![record(5)]), 9);
    assert_eq!(next_log_cursor(0, &vec![]), 0);
}
