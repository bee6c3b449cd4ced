use mtpdrive_core::release::{release_check, select_dmg_asset, AssetFields, NO_ASSET_MESSAGE, NO_TAG_MESSAGE};
use serde_json::Value;

const RELEASE: &[u8] = br#"{
    "tag_name": "v1.4.0",
    "assets": [
        {
            "name": "MTPDrive-1.4.0-universal.dmg",
            "size": 12345,
            "browser_download_url": "https://github.com/moeleak/mtpdrive/releases/download/v1.4.0/MTPDrive-1.4.0-universal.dmg"
        }
    ]
}"#;

fn parse_release_response(
    body: &[u8],
    current: &str,
) -> Result<mtpdrive_core::release::ReleaseCheck, String> {
    let value: Value = serde_json::from_slice(body).map_err(|e| e.to_string())?;
    let tag = value["tag_name"].as_str().map(str::to_owned);
    let assets: Vec<AssetFields> = value["assets"]
        .as_array()
        .map(|assets| {
            assets
                .iter()
                .map(|asset| AssetFields {
                    name: asset["name"].as_str().map(str::to_owned),
                    url: asset["browser_download_url"].as_str().map(str::to_owned),
                    size: asset["size"].as_u64(),
                })
                .collect()
        })
        .unwrap_or_default();
    release_check(tag, &assets, current)
}

#[test]
fn main_release_check_compares_semantic_versions() {
    let update = parse_release_response(RELEASE, "1.3.9").expect("valid release");
    assert!(update.update_available);
    assert_eq!(update.latest_version, "1.4.0");
    assert_eq!(
        update.asset.expect("DMG asset").name,
        "MTPDrive-1.4.0-universal.dmg"
    );

    let current = parse_release_response(RELEASE, "1.4.1").expect("valid release");
    assert!(!current.update_available);
}

#[test]
fn updater_release_check_compares_semantic_versions() {
    let update = parse_release_response(RELEASE, "1.3.9").expect("valid release");
    assert!(update.update_available);
    assert_eq!(update.latest_version, "1.4.0");
    assert_eq!(
        update.asset.expect("DMG asset").name,
        "MTPDrive-1.4.0-universal.dmg"
    );

    let current = parse_release_response(RELEASE, "1.4.1").expect("valid release");
    assert!(!current.update_available);
}

#[test]
fn main_release_check_rejects_untrusted_urls() {
    let response = br#"{
        "tag_name": "v9.0.0",
        "assets": [{
            "name": "MTPDrive-9.0.0-universal.dmg",
            "size": 12345,
            "browser_download_url": "https://example.com/not-mtpdrive.dmg"
        }]
    }"#;
    assert!(parse_release_response(response, "1.0.0").is_err());
}

#[test]
fn updater_release_check_rejects_untrusted_urls() {
    let response = br#"{
        "tag_name": "v9.0.0",
        "assets": [{
            "name": "MTPDrive-9.0.0-universal.dmg",
            "size": 12345,
            "browser_download_url": "https://example.com/not-mtpdrive.dmg"
        }]
    }"#;
    assert!(parse_release_response(response, "1.0.0").is_err());
}

#[test]
fn release_check_rejects_unsafe_or_empty_assets() {
    for response in [
        br#"{
            "tag_name": "v9.0.0",
            "assets": [{
                "name": "../MTPDrive.dmg",
                "size": 12345,
                "browser_download_url": "https://github.com/moeleak/mtpdrive/releases/download/v9.0.0/MTPDrive.dmg"
            }]
        }"#
        .as_slice(),
        br#"{
            "tag_name": "v9.0.0",
            "assets": [{
                "name": "MTPDrive.dmg",
                "size": 0,
                "browser_download_url": "https://github.com/moeleak/mtpdrive/releases/download/v9.0.0/MTPDrive.dmg"
            }]
        }"#
        .as_slice(),
        br#"{"tag_name": "v9.0.0", "assets": []}"#.as_slice(),
    ] {
        assert!(parse_release_response(response, "1.0.0").is_err());
    }
}

fn asset(name: &str, size: u64) -> AssetFields {
    AssetFields {
        name: Some(name.to_owned()),
        url: Some(format!("https://github.com/moeleak/mtpdrive/releases/download/v1.0.0/{name}")),
        size: Some(size),
    }
}

#[test]
fn the_last_universal_build_is_preferred() {
    let chosen = select_dmg_asset(&vec![
        asset("A-universal.DMG", 1),
        asset("B-arm64.dmg", 1),
        asset("C-Universal.dmg", 2),
        asset("D-x86.dmg", 1),
    ])
    .expect("asset");
    assert_eq!(chosen.name, "C-Universal.dmg");
    assert_eq!(chosen.size, 2);
    let fallback = select_dmg_asset(&vec![asset("B-arm64.dmg", 1), asset("D-x86.dmg", 3)]).expect("asset");
    assert_eq!(fallback.name, "D-x86.dmg");
    assert_eq!(select_dmg_asset(&vec![asset("notes.txt", 1)]), None);
}

#[test]
fn release_errors_name_what_is_missing() {
    assert_eq!(release_check(None, &vec![], "1.0.0").unwrap_err(), NO_TAG_MESSAGE);
    assert_eq!(
        release_check(Some("v2.0.0".to_owned()), &vec![], "1.0.0").unwrap_err(),
        NO_ASSET_MESSAGE
    );
    assert!(release_check(Some("banana".to_owned()), &vec![], "1.0.0").is_err());
    assert_eq!(
        release_check(Some("v1.x".to_owned()), &vec![], "1.0.0").unwrap_err(),
        semver::Version::parse("1.x").unwrap_err().to_string()
    );
    assert_eq!(
        release_check(Some("v2.0.0".to_owned()), &vec![], "one").unwrap_err(),
        semver::Version::parse("one").unwrap_err().to_string()
    );
    assert!(release_check(Some("1.0.0".to_owned()), &vec![], "x").is_err());
    let same = release_check(Some("1.0.0".to_owned()), &vec![], "1.0.0").expect("same version");
    assert!(!same.update_available);
    assert_eq!(same.asset, None);
    let pre = release_check(Some("v1.0.0-rc.1".to_owned()), &vec![], "1.0.0").expect("pre-release");
    assert!(!pre.update_available);
    assert_eq!(pre.latest_version, "1.0.0-rc.1");
}

use mtpdrive_core::release::{check_download_size, download_progress, release_request_error};

#[test]
fn downloads_report_changed_progress_and_check_their_size() {
    assert_eq!(download_progress(5, 10, 0), Some(5));
    assert_eq!(download_progress(5, 10, 5), None);
    assert_eq!(download_progress(50, 10, 5), Some(10));
    assert_eq!(check_download_size(10, 10), Ok(()));
    assert_eq!(
        check_download_size(9, 10),
        Err("the DMG size was 9 bytes; expected 10 bytes".to_owned())
    );
    assert_eq!(release_request_error("  rate limited\n", "exit status: 22"), "rate limited");
    assert_eq!(release_request_error(" \n", "exit status: 6"), "curl exited with exit status: 6");
}
