use mtpdrive_core::format::{format_bytes, format_mount_state};
use mtpdrive_core::i18n::Language;
use mtpdrive_core::model::MountState;

#[test]
fn byte_counts_use_existing_binary_unit_format() {
    assert_eq!(format_bytes(0), "0 B");
    assert_eq!(format_bytes(1023), "1023 B");
    assert_eq!(format_bytes(1024), "1.0 KiB");
    assert_eq!(format_bytes(5 * 1024 * 1024), "5.0 MiB");
}

#[test]
fn mount_states_use_existing_localized_text() {
    let language = Language::English;
    assert_eq!(
        format_mount_state(language, &MountState::Unmounted),
        language.strings().unmounted
    );
    assert_eq!(
        format_mount_state(
            language,
            &MountState::Mounted {
                path: "/Users/example/MTPDrive".to_owned(),
                port: 51_896,
            },
        ),
        "Mounted at /Users/example/MTPDrive"
    );
}

#[test]
fn byte_counts_round_like_one_decimal_float_formatting() {
    for bytes in [1024u64, 1075, 1076, 1280, 1536, 1126, 10 * 1024 - 1, 1024 * 1024 - 1, 3_000_000_000, u64::MAX] {
        let mut value = bytes as f64;
        let mut unit = 0;
        let units = ["B", "KiB", "MiB", "GiB", "TiB"];
        while value >= 1024.0 && unit < units.len() - 1 {
            value /= 1024.0;
            unit += 1;
        }
        assert_eq!(format_bytes(bytes), format!("{value:.1} {}", units[unit]), "{bytes}");
    }
}

#[test]
fn other_mount_states_have_their_own_text() {
    assert_eq!(format_mount_state(Language::English, &MountState::Mounting), "Mounting…");
    let text = format_mount_state(
        Language::English,
        &MountState::Error { message: "busy".to_owned() },
    );
    assert_eq!(text, "Mount failed: busy");
}
