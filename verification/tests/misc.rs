use mtpdrive_core::daemon::{
    completion_response, current_snapshot, devices_reply, discovery_step, pong, settings_reply,
    DaemonOptions,
    DiscoveryActions, DiscoveryState,
};
use mtpdrive_core::error::{Error, IoErrorKind};
use mtpdrive_core::i18n::Language;
use mtpdrive_core::ipc::{
    connect_error, devices_response, done_response, empty_response_error, is_pong, logs_response,
    snapshot_response, DaemonClient, DaemonRequestError,
};
use mtpdrive_core::model::{ControlResponse, LogLevel, LogRecord, MountState, ServiceSnapshot, VERSION};
use mtpdrive_core::paths::{join_path, AppPaths};
use mtpdrive_core::settings::AppSettings;

#[test]
fn paths_are_joined_like_path_join() {
    assert_eq!(join_path("/a", "b"), "/a/b");
    assert_eq!(join_path("/a/", "b"), "/a/b");
    assert_eq!(join_path("", "b"), "b");
    let paths = AppPaths::under("/tmp/root");
    assert_eq!(paths.staging_dir, "/tmp/root/cache/staging");
    assert_eq!(paths.socket_path, "/tmp/root/support/control.sock");
    assert_eq!(paths.mount_point, "/tmp/root/MTPDrive");
    let home = AppPaths::in_home("/Users/me");
    assert_eq!(home.support_dir, "/Users/me/Library/Application Support/MTPDrive");
    assert_eq!(home.cache_dir, "/Users/me/Library/Caches/MTPDrive");
    assert_eq!(home.log_dir, "/Users/me/Library/Application Support/MTPDrive/logs");
    assert_eq!(home.mount_point, "/Users/me/MTPDrive");
}

#[test]
fn errors_describe_themselves_with_their_detail() {
    assert_eq!(
        Error::Operation("x".to_owned()).describe(Language::English),
        format!("{}: x", Language::English.strings().operation_failed)
    );
    assert_eq!(
        Error::DaemonUnavailable.describe(Language::English),
        Language::English.strings().daemon_unavailable
    );
}

#[test]
fn missing_sockets_mean_the_daemon_is_not_running() {
    assert!(matches!(
        connect_error(IoErrorKind::NotFound, "gone".to_owned()),
        Error::DaemonUnavailable
    ));
    assert!(matches!(
        connect_error(IoErrorKind::ConnectionRefused, "no".to_owned()),
        Error::DaemonUnavailable
    ));
    assert!(matches!(
        connect_error(IoErrorKind::Other, "odd".to_owned()),
        Error::Io { kind: IoErrorKind::Other, message } if message == "odd"
    ));
    assert!(matches!(
        empty_response_error(Language::English),
        Error::InvalidResponse(d) if d == Language::English.strings().empty_response
    ));
    let client = DaemonClient::new("/tmp/s.sock".to_owned());
    assert_eq!(client.socket_path(), "/tmp/s.sock");
}

#[test]
fn replies_are_decoded_by_kind() {
    assert!(is_pong(&pong()));
    assert!(!is_pong(&ControlResponse::Done));
    let snapshot = current_snapshot(MountState::Unmounted, vec![], Some("e".to_owned()));
    assert_eq!(snapshot.version, VERSION);
    assert_eq!(snapshot.transfer_count, 0);
    let decoded = snapshot_response(ControlResponse::Snapshot(snapshot.clone()), Language::English);
    assert_eq!(decoded.expect("snapshot"), snapshot);
    assert!(matches!(
        snapshot_response(ControlResponse::Error { message: "m".to_owned() }, Language::English),
        Err(Error::Operation(m)) if m == "m"
    ));
    assert!(matches!(
        snapshot_response(ControlResponse::Done, Language::English),
        Err(Error::InvalidResponse(_))
    ));
    assert!(matches!(devices_response(ControlResponse::Devices(vec![])), Ok(d) if d.is_empty()));
    assert!(matches!(
        devices_response(ControlResponse::Error { message: "mount failed".to_owned() }),
        Err(DaemonRequestError::Daemon(m)) if m == "mount failed"
    ));
    assert!(matches!(
        logs_response(ControlResponse::Done),
        Err(DaemonRequestError::Unexpected(ControlResponse::Done))
    ));
    assert!(done_response(ControlResponse::Done).is_ok());
}

#[test]
fn the_daemon_answers_requests() {
    assert_eq!(completion_response(Ok(())), ControlResponse::Done);
    assert_eq!(
        completion_response(Err("bad".to_owned())),
        ControlResponse::Error { message: "bad".to_owned() }
    );
    assert_eq!(devices_reply(Ok(vec![])), ControlResponse::Devices(vec![]));
    let defaults = DaemonOptions::default();
    assert_eq!(defaults.scan_interval_ms, 2000);
    assert!(defaults.open_on_first_device);
    let _: ServiceSnapshot = current_snapshot(MountState::Mounting, vec![], None);
}

#[test]
fn discovery_rounds_flush_refresh_and_open_finder() {
    let start = DiscoveryState { previous_count: 0, storage_tick: 0 };
    let (next, actions) = discovery_step(start, 1, true, true);
    assert_eq!(next, DiscoveryState { previous_count: 1, storage_tick: 1 });
    assert_eq!(
        actions,
        DiscoveryActions { flush_dirty: false, refresh_storage_info: false, open_finder: true }
    );
    let (_, actions) = discovery_step(DiscoveryState { previous_count: 1, storage_tick: 14 }, 1, true, true);
    assert_eq!(
        actions,
        DiscoveryActions { flush_dirty: true, refresh_storage_info: true, open_finder: false }
    );
    let (next, actions) = discovery_step(DiscoveryState { previous_count: 0, storage_tick: u32::MAX }, 0, true, true);
    assert_eq!(next.storage_tick, 0);
    assert!(actions.refresh_storage_info && !actions.flush_dirty && !actions.open_finder);
    let (_, actions) = discovery_step(start, 2, true, false);
    assert!(!actions.open_finder);
}

#[test]
fn saved_settings_are_echoed_back() {
    let settings = AppSettings::default();
    assert_eq!(settings_reply(Ok(()), settings), ControlResponse::Settings(settings));
    assert_eq!(
        settings_reply(Err("disk full".to_owned()), settings),
        ControlResponse::Error { message: "disk full".to_owned() }
    );
}

#[test]
fn replies_render_as_their_debug_form() {
    assert_eq!(ControlResponse::Done.describe(), "Ok");
    assert_eq!(
        ControlResponse::Pong { version: "0.1.2".to_owned() }.describe(),
        "Pong { version: \"0.1.2\" }"
    );
    assert_eq!(
        ControlResponse::Error { message: "a \"b\"\\\n\u{1}".to_owned() }.describe(),
        "Error { message: \"a \\\"b\\\"\\\\\\n\\u{1}\" }"
    );
    let snapshot = ServiceSnapshot {
        version: "1".to_owned(),
        mount: MountState::Mounted { path: "/m".to_owned(), port: 2049 },
        devices: Vec::new(),
        transfer_count: 3,
        last_error: Some("x".to_owned()),
    };
    assert_eq!(
        ControlResponse::Snapshot(snapshot).describe(),
        "Snapshot(ServiceSnapshot { version: \"1\", mount: Mounted { path: \"/m\", port: 2049 }, devices: [], transfer_count: 3, last_error: Some(\"x\") })"
    );
    let record = LogRecord {
        id: 7,
        unix_millis: -5,
        level: LogLevel::Warn,
        target: "t".to_owned(),
        message: "m".to_owned(),
    };
    assert_eq!(
        ControlResponse::Logs(vec![record.clone(), record]).describe(),
        "Logs([LogRecord { id: 7, unix_millis: -5, level: Warn, target: \"t\", message: \"m\" }, LogRecord { id: 7, unix_millis: -5, level: Warn, target: \"t\", message: \"m\" }])"
    );
    assert_eq!(
        ControlResponse::Settings(AppSettings::default()).describe(),
        "Settings(AppSettings { always_open_in_finder: true, language: System, theme_color: Purple, appearance: System })"
    );
    assert_eq!(
        DaemonRequestError::Unexpected(ControlResponse::Done).describe(Language::English),
        Language::English.unexpected_daemon_response("Ok")
    );
}
