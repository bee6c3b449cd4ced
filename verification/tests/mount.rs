use mtpdrive_core::error::Error;
use mtpdrive_core::i18n::Language;
use mtpdrive_core::model::MountState;
use mtpdrive_core::mount::{
    can_reuse_mount, contains_text, lists_mount_point, mount_options, mount_outcome, mount_step,
    unmount_outcome, MountStep,
};

#[test]
fn daemon_does_not_reuse_a_mount_it_did_not_create() {
    assert!(!can_reuse_mount(&MountState::Unmounted, 51_896, true));
}

#[test]
fn daemon_reuses_its_live_mount_on_the_same_port() {
    let state = MountState::Mounted {
        path: "/Users/example/MTPDrive".to_owned(),
        port: 51_896,
    };
    assert!(can_reuse_mount(&state, 51_896, true));
}

#[test]
fn daemon_replaces_a_mount_on_a_different_or_missing_port() {
    let state = MountState::Mounted {
        path: "/Users/example/MTPDrive".to_owned(),
        port: 63_250,
    };
    assert!(!can_reuse_mount(&state, 51_896, true));
    assert!(!can_reuse_mount(&state, 63_250, false));
}

#[test]
fn a_foreign_mount_is_replaced_before_mounting() {
    assert_eq!(mount_step(&MountState::Unmounted, 1, true), MountStep::ReplaceThenMount);
    assert_eq!(mount_step(&MountState::Unmounted, 1, false), MountStep::Mount);
    let live = MountState::Mounted { path: "/m".to_owned(), port: 1 };
    assert_eq!(mount_step(&live, 1, true), MountStep::Reuse);
}

#[test]
fn mount_options_name_the_port_twice() {
    assert_eq!(
        mount_options(51896),
        "vers=3,tcp,nolocks,localhost,port=51896,mountport=51896,rsize=131072,wsize=131072,actimeo=1,nodev,nosuid,soft,timeo=600,retrans=5"
    );
}

#[test]
fn mount_tables_are_searched_for_the_mount_point() {
    let table = "localhost:/ on /Users/example/MTPDrive (nfs, nodev, nosuid)\n/dev/disk1 on / (apfs)\n";
    assert!(lists_mount_point(table, "/Users/example/MTPDrive"));
    assert!(!lists_mount_point(table, "/Users/example/Other"));
    assert!(contains_text("abc", "bc"));
    assert!(contains_text("abc", ""));
    assert!(!contains_text("ab", "abc"));
}

#[test]
fn outcomes_of_mount_commands() {
    let (state, result) = mount_outcome(true, "/m", 7, "", Language::English);
    assert_eq!(state, MountState::Mounted { path: "/m".to_owned(), port: 7 });
    assert!(result.is_ok());
    let (state, result) = mount_outcome(false, "/m", 7, "  denied\n", Language::English);
    assert_eq!(state, MountState::Error { message: "denied".to_owned() });
    assert!(matches!(result, Err(Error::Operation(d)) if d.contains("denied")));
    let (state, result) = unmount_outcome(true, "", Language::English);
    assert_eq!(state, MountState::Unmounted);
    assert!(result.is_ok());
    let (state, _) = unmount_outcome(false, " busy ", Language::English);
    assert_eq!(state, MountState::Error { message: "busy".to_owned() });
}
