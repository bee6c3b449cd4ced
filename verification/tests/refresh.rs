use mtpdrive_core::device::{device_key, open_error_message, ConnectedKeys, DeviceIdentity, OpenFailures};
use mtpdrive_core::error::Error;
use mtpdrive_core::i18n::Language;
use mtpdrive_core::refresh::{refresh_step, RefreshAction, RefreshEvent, RefreshStage, RefreshState};

fn phone(serial: &str, location_id: u64) -> DeviceIdentity {
    DeviceIdentity {
        vendor_id: 0x18d1,
        product_id: 0x4ee1,
        location_id,
        serial_number: Some(serial.to_owned()),
    }
}

fn keys(serial: &str, location: &str) -> ConnectedKeys {
    ConnectedKeys {
        key: format!("18d1:4ee1:{serial}"),
        physical_key: format!("18d1:4ee1@{location}"),
        vendor_product_key: "18d1:4ee1".to_owned(),
    }
}

fn held() -> Error {
    Error::Mtp { detail: "busy".to_owned(), exclusive_access: true }
}

fn step(state: RefreshState, event: RefreshEvent) -> (RefreshState, RefreshAction) {
    refresh_step(state, event)
}

#[test]
fn a_device_that_left_is_dropped_and_a_new_one_opened() {
    let state = RefreshState::new(
        vec![phone("NEW", 0x20)],
        vec![keys("OLD", "10")],
        OpenFailures::new(),
        Language::English,
    );
    let (state, action) = step(state, RefreshEvent::Next);
    assert_eq!(action, RefreshAction::Reread { key: "18d1:4ee1:OLD".to_owned() });
    let (state, action) = step(state, RefreshEvent::Reread(false));
    assert_eq!(action, RefreshAction::Drop { key: "18d1:4ee1:OLD".to_owned() });
    assert!(state.connected.is_empty());
    let (state, action) = step(state, RefreshEvent::Next);
    assert_eq!(action, RefreshAction::Continue);
    let (state, action) = step(state, RefreshEvent::Next);
    assert_eq!(action, RefreshAction::Open { candidate: 0 });
    let (state, action) = step(state, RefreshEvent::Opened);
    assert_eq!(action, RefreshAction::Keep { key: "18d1:4ee1:NEW".to_owned() });
    assert_eq!(state.connected.len(), 1);
    let (state, action) = step(state, RefreshEvent::Next);
    assert_eq!(action, RefreshAction::Finish { last_error: None });
    assert_eq!(state.stage, RefreshStage::Done);
}

#[test]
fn a_device_whose_storages_reread_is_kept() {
    let state = RefreshState::new(Vec::new(), vec![keys("OLD", "10")], OpenFailures::new(), Language::English);
    let (state, _) = step(state, RefreshEvent::Next);
    let (state, action) = step(state, RefreshEvent::Reread(true));
    assert_eq!(action, RefreshAction::Continue);
    assert_eq!(state.connected.len(), 1);
}

#[test]
fn connected_devices_are_neither_reread_nor_reopened() {
    let state = RefreshState::new(
        vec![phone("ABC", 0x10)],
        vec![keys("ABC", "10")],
        OpenFailures::new(),
        Language::English,
    );
    let (state, a1) = step(state, RefreshEvent::Next);
    let (state, a2) = step(state, RefreshEvent::Next);
    let (state, a3) = step(state, RefreshEvent::Next);
    let (_, a4) = step(state, RefreshEvent::Next);
    assert_eq!(a1, RefreshAction::Continue);
    assert_eq!(a2, RefreshAction::Continue);
    assert_eq!(a3, RefreshAction::Continue);
    assert_eq!(a4, RefreshAction::Finish { last_error: None });
}

#[test]
fn a_held_device_is_reported_once_and_never_taken_from_its_holder() {
    let candidate = phone("ABC", 0x10);
    let key = device_key(&candidate);
    let expected = open_error_message(&key, &held(), Language::English);
    let mut failures = OpenFailures::new();
    for round in 0..2 {
        let state = RefreshState::new(vec![candidate.clone()], Vec::new(), failures, Language::English);
        let (state, _) = step(state, RefreshEvent::Next);
        let (state, action) = step(state, RefreshEvent::Next);
        assert_eq!(action, RefreshAction::Open { candidate: 0 });
        let (state, action) = step(state, RefreshEvent::OpenFailed(held()));
        assert_eq!(action, RefreshAction::Failed { message: expected.clone(), report: round == 0 });
        let (state, action) = step(state, RefreshEvent::Next);
        assert_eq!(action, RefreshAction::Finish { last_error: Some(expected.clone()) });
        failures = state.failures;
    }
}

#[test]
fn failures_of_devices_no_longer_found_are_forgotten() {
    let candidate = phone("ABC", 0x10);
    let key = device_key(&candidate);
    let mut failures = OpenFailures::new();
    failures.record(key.clone(), "m".to_owned());
    let state = RefreshState::new(Vec::new(), Vec::new(), failures, Language::English);
    let mut failures = state.failures;
    assert!(failures.record(key, "m".to_owned()));
}
