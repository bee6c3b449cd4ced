use mtpdrive_core::cache::{DeviceCache, ObjectEntry, MTP_ALL_HANDLE, MTP_ROOT_HANDLE};
use mtpdrive_core::device::{
    sort_summaries, device_summary, location_serial, storage_summary, BusLabels, ReportedInfo,
    apply_event, is_connected, still_present, ConnectedKeys, OpenFailures, candidate_matches_connected, clamp_millis, dedupe_candidates, device_key,
    device_writable, find_uploaded_object, has_useful_serial, image_capture_daemon_pids,
    lookup_order, mtp_write_parent, next_change_timestamp, nonempty, normalize_parent,
    open_error_message, physical_device_key, storage_name, vendor_product_key, DeviceEvent,
    DeviceIdentity, ListedObject,
};
use mtpdrive_core::error::Error;
use mtpdrive_core::i18n::Language;
use mtpdrive_core::model::StorageSummary;

#[test]
fn nonempty_uses_each_fallback() {
    assert_eq!(nonempty("Pixel", Some("USB"), "Unknown"), "Pixel");
    assert_eq!(nonempty("", Some("USB"), "Unknown"), "USB");
    assert_eq!(nonempty("", None, "Unknown"), "Unknown");
}

#[test]
fn image_capture_pid_parser_requires_the_exact_path_and_current_user() {
    let processes = r"
          101   501 /System/Library/Image Capture/Support/icdd
          102   502 /System/Library/Image Capture/Support/icdd
          103   501 /tmp/icdd
          104   501 /System/Library/Image Capture/Support/icdd --unexpected
        ";

    assert_eq!(image_capture_daemon_pids(processes, 501), vec![101]);
}

#[test]
fn pid_parser_accepts_plus_signs_and_crlf_and_rejects_bad_numbers() {
    let processes = "+7 501 /System/Library/Image Capture/Support/icdd\r\n\
        x8 501 /System/Library/Image Capture/Support/icdd\n\
        4294967296 501 /System/Library/Image Capture/Support/icdd\n\
        9\t501\t/System/Library/Image\tCapture/Support/icdd";
    assert_eq!(image_capture_daemon_pids(processes, 501), vec![7, 9]);
    assert!(image_capture_daemon_pids("", 501).is_empty());
}

#[test]
fn both_mtp_root_parent_encodings_are_normalized() {
    assert_eq!(normalize_parent(MTP_ROOT_HANDLE), 0);
    assert_eq!(normalize_parent(MTP_ALL_HANDLE), 0);
    assert_eq!(normalize_parent(42), 42);
    assert_eq!(mtp_write_parent(None), Some(MTP_ALL_HANDLE));
    assert_eq!(mtp_write_parent(Some(42)), Some(42));
}

#[test]
fn change_timestamp_is_strictly_monotonic() {
    let now = 1_700_000_000_000;
    assert_eq!(next_change_timestamp(u64::MAX - 2, now), u64::MAX - 1);
    assert_eq!(next_change_timestamp(5, now), now);
    assert_eq!(next_change_timestamp(u64::MAX, 0), u64::MAX);
    assert_eq!(clamp_millis(u128::from(u64::MAX) + 5), u64::MAX);
}

#[test]
fn storage_names_fall_back_to_the_hexadecimal_id() {
    assert_eq!(storage_name("Internal", 0x10001, Language::English), "Internal");
    assert_eq!(storage_name("  ", 0x10001, Language::English), "Storage 00010001");
}

fn identity(serial: Option<&str>) -> DeviceIdentity {
    DeviceIdentity {
        vendor_id: 0x18d1,
        product_id: 0x4ee1,
        location_id: 0x1410_0000,
        serial_number: serial.map(str::to_owned),
    }
}

#[test]
fn device_keys_use_serials_or_bus_places() {
    assert_eq!(device_key(&identity(Some("ABC"))), "18d1:4ee1:ABC");
    assert_eq!(device_key(&identity(None)), "18d1:4ee1@14100000");
    assert_eq!(physical_device_key(&identity(Some("ABC"))), "18d1:4ee1@14100000");
    assert_eq!(vendor_product_key(&identity(None)), "18d1:4ee1");
    assert!(has_useful_serial(&identity(Some("ABC"))));
    assert!(!has_useful_serial(&identity(Some("?"))));
    assert!(!has_useful_serial(&identity(Some("  "))));
    assert!(!has_useful_serial(&identity(None)));
}

#[test]
fn candidates_match_connected_devices_by_key_place_or_model() {
    let candidate = identity(Some("?"));
    assert!(candidate_matches_connected(&candidate, "other", "other", "18d1:4ee1"));
    assert!(!candidate_matches_connected(&identity(Some("XYZ")), "other", "other", "18d1:4ee1"));
    assert!(candidate_matches_connected(&identity(None), "k", "18d1:4ee1@14100000", "v"));
}

#[test]
fn one_candidate_per_bus_place_prefers_a_serial() {
    let without = identity(None);
    let with = identity(Some("ABC"));
    let mut elsewhere = identity(None);
    elsewhere.location_id = 7;
    let kept = dedupe_candidates(&vec![without.clone(), elsewhere.clone(), with.clone()]);
    assert_eq!(kept, vec![elsewhere, with]);
}

#[test]
fn uploads_are_found_by_reported_handle_first() {
    let objects = vec![
        ListedObject { handle: 1, name: "a.txt".to_owned(), size: 3, is_dir: false },
        ListedObject { handle: 2, name: "a.txt".to_owned(), size: 3, is_dir: false },
    ];
    assert_eq!(find_uploaded_object(&objects, "a.txt", 3, Some(2), Some(false)), Some(2));
    assert_eq!(find_uploaded_object(&objects, "a.txt", 3, Some(9), Some(false)), Some(1));
    assert_eq!(find_uploaded_object(&objects, "a.txt", 4, None, None), None);
    assert_eq!(find_uploaded_object(&objects, "a.txt", 3, None, Some(true)), None);
}

#[test]
fn cached_storage_is_asked_first() {
    assert_eq!(lookup_order(vec![1, 2, 3], Some(3)), vec![3, 2, 1]);
    assert_eq!(lookup_order(vec![1, 2, 3], Some(9)), vec![1, 2, 3]);
    assert_eq!(lookup_order(vec![1, 2, 3], None), vec![1, 2, 3]);
}

#[test]
fn exclusive_access_gets_its_own_advice() {
    let held = Error::Mtp { detail: "busy".to_owned(), exclusive_access: true };
    let other = Error::Mtp { detail: "busy".to_owned(), exclusive_access: false };
    assert!(open_error_message("k", &held, Language::English).contains("exclusive access"));
    assert_eq!(
        open_error_message("k", &other, Language::English),
        "Could not open Android device k: MTP error: busy"
    );
}

#[test]
fn devices_accept_uploads_only_with_a_writable_storage() {
    let storage = |writable| StorageSummary {
        id: 1,
        name: "s".to_owned(),
        total_bytes: 1,
        free_bytes: 1,
        writable,
    };
    assert!(device_writable(&vec![storage(false), storage(true)], true));
    assert!(!device_writable(&vec![storage(true)], false));
    assert!(!device_writable(&vec![storage(false)], true));
}

fn entry(handle: u64, name: &str) -> ObjectEntry {
    ObjectEntry {
        handle,
        storage_id: 7,
        parent: 0,
        name: name.to_owned(),
        size: 0,
        is_dir: false,
        created: None,
        modified: None,
    }
}

#[test]
fn device_events_update_or_clear_the_cache() {
    let mut cache = DeviceCache::default();
    cache.store_listing(7, None, vec![entry(12, "photo.jpg")], 100);
    assert!(apply_event(&mut cache, DeviceEvent::ObjectAdded { handle: 13 }, Some(entry(13, "new.jpg")), 200));
    assert_eq!(cache.listing(7, None, 200).expect("listing").0.len(), 2);
    assert!(!apply_event(&mut cache, DeviceEvent::StorageInfoChanged { storage_id: 7 }, None, 200));
    assert!(cache.object(7, 13).is_some());
    assert!(apply_event(&mut cache, DeviceEvent::ObjectRemoved { handle: 13 }, None, 300));
    assert!(cache.object(7, 13).is_none());
    assert!(apply_event(&mut cache, DeviceEvent::ObjectInfoChanged { handle: 12 }, None, 300));
    assert!(cache.listing(7, None, 300).is_none());
    cache.store_listing(7, None, vec![entry(12, "photo.jpg")], 100);
    assert!(apply_event(&mut cache, DeviceEvent::DeviceReset, None, 400));
    assert!(cache.object(7, 12).is_none());
}

#[test]
fn repeated_open_failures_are_reported_once() {
    let mut failures = OpenFailures::new();
    assert!(failures.record("a".to_owned(), "busy".to_owned()));
    assert!(!failures.record("a".to_owned(), "busy".to_owned()));
    assert!(failures.record("b".to_owned(), "busy".to_owned()));
    assert!(failures.record("a".to_owned(), "locked".to_owned()));
    failures.clear("a");
    assert!(failures.record("a".to_owned(), "locked".to_owned()));
    failures.retain_present(&vec!["a".to_owned()]);
    assert!(!failures.record("a".to_owned(), "locked".to_owned()));
    assert!(failures.record("b".to_owned(), "busy".to_owned()));
}

#[test]
fn candidates_are_compared_with_the_connected_devices() {
    let pixel = identity(Some("ABC"));
    let connected = vec![ConnectedKeys {
        key: "18d1:4ee1:ABC".to_owned(),
        physical_key: "elsewhere".to_owned(),
        vendor_product_key: "18d1:4ee1".to_owned(),
    }];
    assert!(is_connected(&pixel, &connected));
    assert!(still_present(&vec![pixel.clone()], &connected[0]));
    let mut other = identity(Some("XYZ"));
    other.location_id = 9;
    assert!(!is_connected(&other, &connected));
    assert!(!still_present(&vec![other], &connected[0]));
}

#[test]
fn device_summaries_fall_back_from_device_to_bus_to_defaults() {
    let storages = vec![
        storage_summary(0x10001, "", 100, 50, false, Language::English),
        storage_summary(0x20001, "SD card", 10, 5, true, Language::English),
    ];
    assert_eq!(storages[0].name, "Storage 00010001");
    assert_eq!(storages[1].name, "SD card");
    assert_eq!(location_serial(0x14100000), "location-14100000");
    let info = ReportedInfo {
        manufacturer: " ".to_owned(),
        model: "Pixel 8".to_owned(),
        serial_number: String::new(),
        device_version: "1.0".to_owned(),
    };
    let bus = BusLabels { manufacturer: Some("Google".to_owned()), product: None, speed: Some("High".to_owned()) };
    let summary = device_summary(
        "k".to_owned(),
        &identity(None),
        &bus,
        &info,
        4,
        storages.clone(),
        true,
        Language::English,
    );
    assert_eq!(summary.manufacturer, "Google");
    assert_eq!(summary.model, "Pixel 8");
    assert_eq!(summary.serial, "location-14100000");
    assert_eq!(summary.usb_speed.as_deref(), Some("High"));
    assert_eq!(summary.generation, 4);
    assert!(summary.writable);
    let read_only = device_summary("k".to_owned(), &identity(Some("S")), &BusLabels { manufacturer: None, product: None, speed: None }, &info, 4, storages, false, Language::English);
    assert!(!read_only.writable);
    assert_eq!(read_only.serial, "S");
    assert_eq!(read_only.manufacturer, Language::English.strings().unknown);
}


#[test]
fn summaries_are_ordered_by_model_then_serial() {
    let summary = |model: &str, serial: &str| mtpdrive_core::model::DeviceSummary {
        key: format!("{model}-{serial}"),
        manufacturer: "m".to_owned(),
        model: model.to_owned(),
        serial: serial.to_owned(),
        device_version: "1".to_owned(),
        usb_speed: None,
        generation: 1,
        writable: false,
        storages: vec![],
    };
    let sorted = sort_summaries(vec![
        summary("Pixel", "B"),
        summary("Galaxy", "Z"),
        summary("Pixel", "A"),
        summary("Galaxy", "A"),
    ]);
    let keys: Vec<&str> = sorted.iter().map(|s| s.key.as_str()).collect();
    assert_eq!(keys, vec!["Galaxy-A", "Galaxy-Z", "Pixel-A", "Pixel-B"]);
}
