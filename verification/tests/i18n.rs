use mtpdrive_core::i18n::{
    current_language, detect_language_from, parse_language, parse_language_list,
    set_current_language, Language,
};

#[test]
fn parses_supported_language_identifiers() {
    assert_eq!(parse_language("en-US"), Some(Language::English));
    assert_eq!(
        parse_language("zh_Hans_CN.UTF-8"),
        Some(Language::SimplifiedChinese)
    );
    assert_eq!(parse_language("zh-CN"), Some(Language::SimplifiedChinese));
}

#[test]
fn does_not_claim_traditional_chinese() {
    assert_eq!(parse_language("zh-Hant"), None);
    assert_eq!(parse_language("zh-TW"), None);
}

#[test]
fn honors_the_first_supported_macos_language() {
    let preferences = "(\n    \"de-US\",\n    \"zh-Hans-US\",\n    \"en-US\"\n)";
    assert_eq!(
        parse_language_list(preferences),
        Some(Language::SimplifiedChinese)
    );
    assert_eq!(
        detect_language_from(&["en-US", "zh-Hans-US"]),
        Language::English
    );
}

#[test]
fn falls_back_to_english() {
    assert_eq!(detect_language_from(&["de-DE", "fr-FR"]), Language::English);
}

#[test]
fn language_lists_without_a_supported_entry_give_nothing() {
    assert_eq!(parse_language_list("(\n  \"de-DE\"\n)"), None);
    assert_eq!(parse_language_list(""), None);
    assert_eq!(parse_language_list("en"), Some(Language::English));
}

#[test]
fn stored_language_overrides_the_system_one() {
    let stored = set_current_language(Language::SimplifiedChinese);
    assert_eq!(current_language(stored, Language::English), Language::SimplifiedChinese);
    assert_eq!(current_language(0, Language::SimplifiedChinese), Language::SimplifiedChinese);
    let english = set_current_language(Language::English);
    assert_eq!(current_language(english, Language::SimplifiedChinese), Language::English);
}

#[test]
fn localized_messages_fill_in_their_arguments() {
    assert_eq!(Language::English.code(), "en");
    assert_eq!(Language::English.mounted_at("/tmp/x"), "Mounted at /tmp/x");
    assert_eq!(Language::English.device_count(1), "1 Android MTP device");
    assert_eq!(Language::English.device_count(2), "2 Android MTP devices");
    assert_eq!(Language::English.nfs_listening(51896), "NFSv3 listening on 127.0.0.1:51896");
}

#[test]
fn download_progress_is_shown_in_tenths_of_a_mib() {
    assert_eq!(
        Language::English.downloading_update(1_572_864, 10 * 1_048_576, "15"),
        "Downloading… 15% (1.5 of 10.0 MiB)"
    );
    assert_eq!(
        Language::SimplifiedChinese.downloading_update(0, u64::MAX, "0"),
        "正在下载… 0%（0.0 / 1759218604441.5 MiB）"
    );
}

#[test]
fn service_messages_carry_their_detail() {
    let en = Language::English;
    let zh = Language::SimplifiedChinese;
    assert_eq!(en.wait_for_nfs_timeout(2049), "Timed out waiting for 127.0.0.1:2049");
    assert_eq!(zh.wait_for_nfs_timeout(2049), "等待 127.0.0.1:2049 超时");
    assert_eq!(en.nfs_start_failed("port busy"), "NFS server did not start: port busy");
    assert_eq!(en.nfs_task_failed("x"), "NFS server task failed: x");
    assert_eq!(en.nfs_stopped_with_error("x"), "NFS server stopped with an error: x");
    assert_eq!(en.nfs_shutdown_timeout(), "NFS server shutdown timed out");
    assert_eq!(zh.nfs_shutdown_timeout(), "NFS 服务退出超时");
    assert_eq!(en.flush_before_exit_failed("e"), "Could not upload staged files before exit: e");
    assert_eq!(
        en.reconnect_commit_failed("e"),
        "Could not upload staged files after reconnecting: e"
    );
    assert_eq!(en.background_commit_failed("e"), "Background upload of a staged file failed: e");
    assert_eq!(en.committing_staged_file(), "Committing staged file");
    assert_eq!(
        en.daemon_start_failed("/bin/mtpdrive", "denied"),
        "Could not start the background service at /bin/mtpdrive: denied"
    );
}

#[test]
fn app_messages_carry_their_detail() {
    let en = Language::English;
    let zh = Language::SimplifiedChinese;
    assert_eq!(en.update_check_failed("offline"), "Could not check for updates: offline");
    assert_eq!(zh.update_check_failed("offline"), "检查更新失败：offline");
    assert_eq!(en.update_download_failed("e"), "Could not download or open the update: e");
    assert_eq!(en.update_downloaded("/tmp/a.dmg"), "Downloaded and opened /tmp/a.dmg");
    assert_eq!(en.open_at_login_failed("e"), "Could not update Open at Login: e");
    assert_eq!(en.tray_creation_failed("e"), "Could not create the menu bar icon: e");
    assert_eq!(en.storage_capacity("1 GB", "2 GB"), "1 GB available of 2 GB");
    assert_eq!(zh.storage_capacity("1 GB", "2 GB"), "1 GB 可用，共 2 GB");
    assert_eq!(en.recent_log_count(1), "The background service’s most recent structured record");
    assert_eq!(en.recent_log_count(3), "The background service’s 3 most recent structured records");
    assert_eq!(zh.recent_log_count(3), "后台服务的最近 3 条结构化记录");
}

#[test]
fn device_details_name_serial_usb_and_access() {
    assert_eq!(
        Language::English.device_details("ABC", "High Speed", true),
        "Serial ABC  ·  USB High Speed  ·  Read & Write"
    );
    assert_eq!(
        Language::English.device_details("ABC", "High Speed", false),
        format!("Serial ABC  ·  USB High Speed  ·  {}", Language::English.strings().read_only)
    );
}
