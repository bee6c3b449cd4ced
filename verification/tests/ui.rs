use mtpdrive_core::i18n::Language;
use mtpdrive_core::settings::{AppearancePreference, LanguagePreference};
use mtpdrive_core::ui::{
    effective_dark, is_active_tray_id, is_service_error, is_show_signal, language_options,
    login_status, login_step, menu_action, LoginStatus, LoginStep, ServiceState, SnapshotPoll,
    SystemMode, TrayAction, MENU_OPEN, MENU_QUIT, MENU_REFRESH, MENU_SHOW, TRAY_ID,
};

#[test]
fn snapshot_poll_retries_after_a_failed_request_finishes() {
    let mut poll = SnapshotPoll::default();

    assert!(poll.begin());
    poll.finish();

    assert!(poll.begin());
}

#[test]
fn snapshot_poll_allows_only_one_request_at_a_time() {
    let mut poll = SnapshotPoll::default();

    assert!(poll.begin());
    assert!(!poll.begin());

    poll.finish();
    assert!(poll.begin());
}

#[test]
fn ui_instance_signal_requires_an_exact_show_message() {
    assert!(is_show_signal(b"show"));
    assert!(!is_show_signal(b""));
    assert!(!is_show_signal(b"show\0"));
    assert!(!is_show_signal(b"show-window"));
    assert!(!is_show_signal(b"noise"));
}

#[test]
fn only_registered_states_enable_the_toggle() {
    assert!(!LoginStatus::Disabled.is_registered());
    assert!(LoginStatus::Enabled.is_registered());
    assert!(LoginStatus::RequiresApproval.is_registered());
    assert!(!LoginStatus::Unavailable.is_registered());
}

#[test]
fn service_management_statuses_are_normalized_for_the_main_app() {
    assert_eq!(login_status(ServiceState::NotRegistered), LoginStatus::Disabled);
    assert_eq!(login_status(ServiceState::Enabled), LoginStatus::Enabled);
    assert_eq!(
        login_status(ServiceState::RequiresApproval),
        LoginStatus::RequiresApproval
    );
    assert_eq!(login_status(ServiceState::NotFound), LoginStatus::Disabled);
}

#[test]
fn the_login_toggle_registers_or_unregisters_only_on_change() {
    assert_eq!(login_step(LoginStatus::Disabled, true), LoginStep::Register);
    assert_eq!(login_step(LoginStatus::Enabled, true), LoginStep::Keep);
    assert_eq!(login_step(LoginStatus::RequiresApproval, false), LoginStep::Unregister);
    assert_eq!(login_step(LoginStatus::Disabled, false), LoginStep::Keep);
}

#[test]
fn appearance_preference_resolves_against_system_mode() {
    assert!(!effective_dark(AppearancePreference::System, SystemMode::Light));
    assert!(effective_dark(AppearancePreference::System, SystemMode::Dark));
    assert!(!effective_dark(AppearancePreference::Light, SystemMode::Dark));
    assert!(effective_dark(AppearancePreference::Dark, SystemMode::Light));
}

#[test]
fn tray_id_is_stable_and_filters_foreign_events() {
    assert_eq!(TRAY_ID, "mtpdrive.main");
    let active = TRAY_ID;
    let foreign = "another.icon";
    assert!(is_active_tray_id(Some(active), active));
    assert!(!is_active_tray_id(Some(active), foreign));
    assert!(!is_active_tray_id(None, active));
}

#[test]
fn menu_ids_map_only_to_mtpdrive_actions() {
    assert_eq!(menu_action(MENU_SHOW), Some(TrayAction::Show));
    assert_eq!(menu_action(MENU_OPEN), Some(TrayAction::OpenFinder));
    assert_eq!(menu_action(MENU_REFRESH), Some(TrayAction::RefreshDevices));
    assert_eq!(menu_action(MENU_QUIT), Some(TrayAction::Quit));
    assert_eq!(menu_action("foreign.menu"), None);
}

#[test]
fn service_errors_are_recognised_in_both_languages() {
    assert!(is_service_error("the daemon is not running"));
    assert!(is_service_error("无法连接后台服务"));
    assert!(!is_service_error("USB unavailable"));
}

#[test]
fn the_language_picker_offers_the_system_default_first() {
    let options = language_options(Language::English);
    assert_eq!(options.len(), 3);
    assert_eq!(options[0].preference, LanguagePreference::System);
    assert_eq!(options[0].label, Language::English.strings().system_default);
    assert_eq!(options[1].label, "English");
    assert_eq!(options[2].label, "简体中文");
}
