use mtpdrive_core::cache::{MtpDateTime, ObjectEntry};
use mtpdrive_core::error::{Error, IoErrorKind};
use mtpdrive_core::model::{DeviceSummary, StorageSummary};
use mtpdrive_core::listing::{device_entries, storage_entries};
use mtpdrive_core::nfs::{
    check_ctime_guard, check_removal, check_rename, check_writable, check_write_size,
    commits_at_once, create_over_existing, read_count, read_reaches_end, staging_target,
    CreateMode, StableHow, MAX_IO_SIZE, lookup_device, lookup_name, lookup_object,
    lookup_storage, parent_or_root, staged_lookup_handle, LookupName, object_directory,
    staged_file_attrs, storage_directory,
    directory_attrs, disambiguate, ensure_generation, granted_access, map_error, named_devices,
    named_storages, object_attrs, object_parent, readdir_page, readdirplus_page, rename_steps,
    safe_component, serial_suffix, staged_parent, timestamp_from_mtp, timestamp_from_system,
    timestamp_from_unix, validate_cookie, validate_name, virtual_parent, volume_capacity,
    FileHandle, Ftype3, HandleTable, NodeHandle, Nfsstat3, Nfstime3, ACCESS3_DELETE,
    ACCESS3_EXECUTE, ACCESS3_LOOKUP, ACCESS3_MODIFY, ACCESS3_READ, FALLBACK_CAPACITY, NFS_FSID,
    ROOT_INODE,
};

#[test]
fn names_are_safe_and_suffixes_are_short() {
    assert_eq!(safe_component("Pixel/Pro"), "Pixel_Pro");
    assert_eq!(serial_suffix("ABCDEF12"), "EF12");
}

#[test]
fn nfs_names_are_safe_and_suffixes_are_short() {
    assert_eq!(safe_component("Pixel/Pro"), "Pixel_Pro");
    assert_eq!(serial_suffix("ABCDEF12"), "EF12");
}

#[test]
fn nfs_handles_are_stable_and_reject_other_filesystems() {
    let mut table = HandleTable::new();
    let handle = NodeHandle::Storage {
        device_key: "phone".into(),
        generation: 1,
        storage_id: 2,
    };
    let inode = table.intern(handle.clone());
    assert_eq!(inode, table.intern(handle.clone()));
    assert_eq!(table.resolve(&FileHandle::new(inode, NFS_FSID)), Ok(handle));
    assert_eq!(
        table.resolve(&FileHandle::new(inode, 99)),
        Err(Nfsstat3::Badhandle)
    );
}

#[test]
fn the_root_has_the_first_inode_and_unknown_inodes_are_stale() {
    let mut table = HandleTable::new();
    assert_eq!(table.resolve(&FileHandle::new(ROOT_INODE, NFS_FSID)), Ok(NodeHandle::Root));
    assert_eq!(table.intern(NodeHandle::Root), ROOT_INODE);
    let staged = table.intern(NodeHandle::Staged(7));
    assert_ne!(staged, ROOT_INODE);
    assert_eq!(table.resolve(&FileHandle::new(staged, NFS_FSID)), Ok(NodeHandle::Staged(7)));
    assert_eq!(table.resolve(&FileHandle::new(staged + 10, NFS_FSID)), Err(Nfsstat3::Stale));
    assert!(table.resolve(&FileHandle::new(0, NFS_FSID)).is_err());
}

#[test]
fn names_given_by_clients_are_checked() {
    assert_eq!(validate_name("photo.jpg"), Ok(()));
    assert_eq!(validate_name(""), Err(Nfsstat3::Inval));
    assert_eq!(validate_name("."), Err(Nfsstat3::Inval));
    assert_eq!(validate_name(".."), Err(Nfsstat3::Inval));
    assert_eq!(validate_name("a/b"), Err(Nfsstat3::Inval));
    assert_eq!(validate_name("a\0b"), Err(Nfsstat3::Inval));
    assert_eq!(validate_name(&"x".repeat(254)), Ok(()));
    assert_eq!(validate_name(&"x".repeat(255)), Err(Nfsstat3::Nametoolong));
    assert_eq!(validate_name(&"é".repeat(128)), Err(Nfsstat3::Nametoolong));
}

#[test]
fn blank_names_become_mtp_device() {
    assert_eq!(safe_component("  "), "MTP device");
    assert_eq!(safe_component(" a:b "), "a_b");
    assert_eq!(serial_suffix("AB"), "AB");
}

fn device(model: &str, serial: &str, storages: Vec<StorageSummary>) -> DeviceSummary {
    DeviceSummary {
        key: serial.to_owned(),
        manufacturer: "Google".to_owned(),
        model: model.to_owned(),
        serial: serial.to_owned(),
        device_version: "1".to_owned(),
        usb_speed: None,
        generation: 3,
        writable: true,
        storages,
    }
}

fn storage(id: u64, name: &str, total: u64, free: u64) -> StorageSummary {
    StorageSummary { id, name: name.to_owned(), total_bytes: total, free_bytes: free, writable: true }
}

#[test]
fn equal_names_are_told_apart_by_their_suffix() {
    let names = disambiguate(
        &vec!["a".to_owned(), "b".to_owned(), "a".to_owned()],
        &vec!["1".to_owned(), "2".to_owned(), "3".to_owned()],
    );
    assert_eq!(names, vec!["a (1)", "b", "a (3)"]);
    let devices = named_devices(vec![
        device("Pixel", "ABCDEF12", vec![]),
        device("Pixel", "XYZ9", vec![]),
        device("Galaxy", "S1", vec![]),
    ]);
    let names: Vec<&str> = devices.iter().map(|(n, _)| n.as_str()).collect();
    assert_eq!(names, vec!["Pixel (EF12)", "Pixel (XYZ9)", "Galaxy"]);
    let storages = named_storages(vec![storage(0x10001, "SD", 1, 1), storage(0x20001, "SD", 1, 1)]);
    assert_eq!(storages[0].0, "SD (00010001)");
    assert_eq!(storages[1].0, "SD (00020001)");
}

#[test]
fn handles_of_earlier_connections_are_stale() {
    let d = device("Pixel", "A", vec![]);
    assert_eq!(ensure_generation(&d, 3), Ok(()));
    assert_eq!(ensure_generation(&d, 2), Err(Nfsstat3::Stale));
}

#[test]
fn backend_errors_map_to_nfs_statuses() {
    assert_eq!(map_error(Error::Disconnected), Nfsstat3::Stale);
    assert_eq!(map_error(Error::NotFound), Nfsstat3::Noent);
    assert_eq!(map_error(Error::Unsupported("x".into())), Nfsstat3::NotSupp);
    assert_eq!(
        map_error(Error::Io { kind: IoErrorKind::StorageFull, message: "full".into() }),
        Nfsstat3::Nospc
    );
    assert_eq!(
        map_error(Error::Io { kind: IoErrorKind::NotFound, message: "gone".into() }),
        Nfsstat3::Noent
    );
    assert_eq!(map_error(Error::Operation("x".into())), Nfsstat3::Io);
    assert_eq!(map_error(Error::DaemonUnavailable), Nfsstat3::ServerFault);
}

#[test]
fn directory_pages_stop_before_the_reply_overflows() {
    let names: Vec<String> = (0..10).map(|i| format!("file{i}.txt")).collect();
    // Each READDIR entry costs 32 bytes plus the name padded to 12 bytes.
    assert_eq!(readdir_page(&names, 0, 128 + 44 * 3), Ok((0, 3, false)));
    assert_eq!(readdir_page(&names, 3, 4096), Ok((3, 10, true)));
    assert_eq!(readdir_page(&names, 50, 4096), Ok((10, 10, true)));
    assert_eq!(readdir_page(&names, 0, 150), Err(Nfsstat3::TooSmall));
    assert_eq!(readdirplus_page(&names, 9, 160 + 188), Ok((9, 10, true)));
}

#[test]
fn cookies_need_the_current_verifier() {
    assert_eq!(validate_cookie(0, [1; 8], [2; 8]), Ok(()));
    assert_eq!(validate_cookie(5, [2; 8], [2; 8]), Ok(()));
    assert_eq!(validate_cookie(5, [1; 8], [2; 8]), Err(Nfsstat3::BadCookie));
}

#[test]
fn access_is_granted_by_kind_and_writability() {
    let all = 0x3f;
    assert_eq!(granted_access(all, false, false), ACCESS3_READ);
    assert_eq!(granted_access(all, true, false), ACCESS3_READ | ACCESS3_LOOKUP | ACCESS3_EXECUTE);
    assert_eq!(
        granted_access(ACCESS3_MODIFY | ACCESS3_DELETE, false, true),
        ACCESS3_MODIFY | ACCESS3_DELETE
    );
    assert_eq!(granted_access(ACCESS3_MODIFY, false, false), 0);
}

#[test]
fn capacity_falls_back_when_devices_report_little() {
    assert_eq!(volume_capacity(&vec![]), (FALLBACK_CAPACITY, FALLBACK_CAPACITY));
    let big = 4 * FALLBACK_CAPACITY;
    let d = device("Pixel", "A", vec![storage(1, "a", big, 10), storage(2, "b", big, 20)]);
    assert_eq!(volume_capacity(&vec![d]), (2 * big, 30));
    let small = device("Pixel", "A", vec![storage(1, "a", 100, 500)]);
    assert_eq!(volume_capacity(&vec![small]), (FALLBACK_CAPACITY, 500));
}

#[test]
fn timestamps_saturate_and_clamp_to_the_epoch() {
    assert_eq!(timestamp_from_system(None), Nfstime3 { seconds: 0, nseconds: 0 });
    assert_eq!(
        timestamp_from_system(Some((u64::from(u32::MAX) + 1, 5))),
        Nfstime3 { seconds: u32::MAX, nseconds: 5 }
    );
    assert_eq!(timestamp_from_unix(Some(-5)), Some(Nfstime3 { seconds: 0, nseconds: 0 }));
    assert_eq!(timestamp_from_unix(None), None);
}

#[test]
fn mtp_dates_are_read_as_utc() {
    let new_year = MtpDateTime { year: 2024, month: 1, day: 1, hour: 0, minute: 0, second: 0 };
    assert_eq!(
        timestamp_from_mtp(new_year),
        Some(Nfstime3 { seconds: 1_704_067_200, nseconds: 0 })
    );
    let later = MtpDateTime { year: 2024, month: 3, day: 1, hour: 12, minute: 30, second: 15 };
    assert_eq!(
        timestamp_from_mtp(later),
        Some(Nfstime3 { seconds: 1_709_296_215, nseconds: 0 })
    );
    assert_eq!(timestamp_from_mtp(MtpDateTime { month: 13, ..new_year }), None);
    assert_eq!(timestamp_from_mtp(MtpDateTime { day: 30, month: 2, ..new_year }), None);
    assert_eq!(
        timestamp_from_mtp(MtpDateTime { year: 1960, ..new_year }),
        Some(Nfstime3 { seconds: 0, nseconds: 0 })
    );
}

#[test]
fn attributes_describe_directories_and_objects() {
    let t = Nfstime3 { seconds: 9, nseconds: 0 };
    let dir = directory_attrs(5, 501, 20, t);
    assert_eq!(dir.ftype, Ftype3::Dir);
    assert_eq!(dir.mode, 0o755);
    assert_eq!(dir.fileid, 5);
    assert_eq!(dir.fsid, NFS_FSID);
    let object = ObjectEntry {
        handle: 4,
        storage_id: 1,
        parent: 0,
        name: "a.txt".to_owned(),
        size: 10,
        is_dir: false,
        created: None,
        modified: None,
    };
    let file = object_attrs(6, &object, 501, 20);
    assert_eq!(file.ftype, Ftype3::Reg);
    assert_eq!(file.size, 10);
    assert_eq!(file.fileid, 6);
}

#[test]
fn parents_of_virtual_nodes_and_objects() {
    let key = "phone".to_owned();
    assert_eq!(
        object_parent(&key, 1, 2, 0),
        NodeHandle::Storage { device_key: key.clone(), generation: 1, storage_id: 2 }
    );
    assert_eq!(
        object_parent(&key, 1, 2, 9),
        NodeHandle::Object { device_key: key.clone(), generation: 1, storage_id: 2, object_id: 9 }
    );
    assert_eq!(
        staged_parent(&key, 1, 2, None),
        NodeHandle::Storage { device_key: key.clone(), generation: 1, storage_id: 2 }
    );
    assert_eq!(virtual_parent(&NodeHandle::Root), Some(None));
    assert_eq!(
        virtual_parent(&NodeHandle::Device { key: key.clone(), generation: 1 }),
        Some(Some(NodeHandle::Root))
    );
    assert_eq!(virtual_parent(&NodeHandle::Staged(1)), None);
}

#[test]
fn renames_move_only_across_directories() {
    assert_eq!(rename_steps(1, None, 1, None, "a", "b"), (false, true));
    assert_eq!(rename_steps(1, Some(3), 1, None, "a", "a"), (true, false));
    assert_eq!(rename_steps(1, None, 2, None, "a", "b"), (true, true));
}

#[test]
fn protocol_checks_refuse_what_the_server_cannot_do() {
    assert_eq!(read_count(10), 10);
    assert_eq!(read_count(u32::MAX), MAX_IO_SIZE);
    assert!(read_reaches_end(5, 5, 10));
    assert!(!read_reaches_end(0, 5, 10));
    assert!(read_reaches_end(u64::MAX, 5, u64::MAX));
    assert_eq!(check_write_size(MAX_IO_SIZE as usize), Ok(()));
    assert_eq!(check_write_size(MAX_IO_SIZE as usize + 1), Err(Nfsstat3::Fbig));
    assert_eq!(create_over_existing(CreateMode::Unchecked, false), Ok(()));
    assert_eq!(create_over_existing(CreateMode::Unchecked, true), Err(Nfsstat3::Isdir));
    assert_eq!(create_over_existing(CreateMode::Guarded, false), Err(Nfsstat3::Exist));
    assert_eq!(create_over_existing(CreateMode::Exclusive, true), Err(Nfsstat3::Exist));
    let t = Nfstime3 { seconds: 3, nseconds: 4 };
    assert_eq!(check_ctime_guard(t, None), Ok(()));
    assert_eq!(check_ctime_guard(t, Some(t)), Ok(()));
    assert_eq!(check_ctime_guard(t, Some(Nfstime3 { seconds: 3, nseconds: 5 })), Err(Nfsstat3::NotSync));
    assert_eq!(check_writable(false), Err(Nfsstat3::Rofs));
    assert_eq!(check_removal(true, false), Err(Nfsstat3::Isdir));
    assert_eq!(check_removal(false, true), Err(Nfsstat3::Notdir));
    assert_eq!(check_removal(true, true), Ok(()));
    assert_eq!(check_rename("a", "b", true, true), Err(Nfsstat3::Xdev));
    assert_eq!(check_rename("a", "a", true, false), Err(Nfsstat3::Rofs));
    assert_eq!(check_rename("a", "a", true, true), Ok(()));
    assert!(!commits_at_once(StableHow::Unstable));
    assert!(commits_at_once(StableHow::FileSync));
    assert_eq!(staging_target(&NodeHandle::Staged(4)), Ok(Some(4)));
    assert_eq!(staging_target(&NodeHandle::Root), Err(Nfsstat3::Isdir));
    let object = NodeHandle::Object { device_key: "k".into(), generation: 1, storage_id: 2, object_id: 3 };
    assert_eq!(staging_target(&object), Ok(None));
}

fn object_named(handle: u64, name: &str) -> ObjectEntry {
    ObjectEntry {
        handle,
        storage_id: 1,
        parent: 0,
        name: name.to_owned(),
        size: 0,
        is_dir: false,
        created: None,
        modified: None,
    }
}

#[test]
fn dot_names_address_the_directory_and_its_parent() {
    assert_eq!(lookup_name("."), LookupName::Current);
    assert_eq!(lookup_name(".."), LookupName::Parent);
    assert_eq!(lookup_name("..."), LookupName::Entry);
    assert_eq!(lookup_name(".hidden"), LookupName::Entry);
    assert_eq!(parent_or_root(None), NodeHandle::Root);
    let device = NodeHandle::Device { key: "k".into(), generation: 2 };
    assert_eq!(parent_or_root(Some(device.clone())), device);
}

#[test]
fn lookups_find_the_first_entry_with_the_name() {
    let named = named_devices(vec![device("Pixel", "ABCDEF12", vec![]), device("Galaxy", "S1", vec![])]);
    assert_eq!(
        lookup_device(&named, "Galaxy"),
        Ok(NodeHandle::Device { key: "S1".into(), generation: 3 })
    );
    assert_eq!(lookup_device(&named, "Nokia"), Err(Nfsstat3::Noent));

    let storages = named_storages(vec![storage(7, "Internal", 10, 5), storage(8, "SD", 10, 5)]);
    let key = "S1".to_owned();
    assert_eq!(
        lookup_storage(&storages, &key, 3, "SD"),
        Ok(NodeHandle::Storage { device_key: "S1".into(), generation: 3, storage_id: 8 })
    );
    assert_eq!(lookup_storage(&storages, &key, 3, "sd"), Err(Nfsstat3::Noent));

    let objects = vec![object_named(4, "a.txt"), object_named(5, "b.txt"), object_named(6, "a.txt")];
    assert_eq!(
        lookup_object(&objects, &key, 3, 7, "a.txt"),
        Ok(NodeHandle::Object { device_key: "S1".into(), generation: 3, storage_id: 7, object_id: 4 })
    );
    assert_eq!(lookup_object(&objects, &key, 3, 7, "c.txt"), Err(Nfsstat3::Noent));
}

#[test]
fn staged_files_answer_as_their_device_object_when_they_have_one() {
    let key = "S1".to_owned();
    let object = |object_id| NodeHandle::Object { device_key: "S1".into(), generation: 3, storage_id: 7, object_id };
    assert_eq!(staged_lookup_handle(&key, 3, 7, 9, Some(11), Some(12)), object(11));
    assert_eq!(staged_lookup_handle(&key, 3, 7, 9, None, Some(12)), object(12));
    assert_eq!(staged_lookup_handle(&key, 3, 7, 9, None, None), NodeHandle::Staged(9));
}

#[test]
fn directories_of_storages_and_objects_check_their_generation() {
    let mut read_only = storage(8, "SD", 10, 5);
    read_only.writable = false;
    let summary = device("Pixel", "S1", vec![storage(7, "Internal", 10, 5), read_only]);
    assert_eq!(storage_directory(&summary, 3, 7), Ok(true));
    assert_eq!(storage_directory(&summary, 3, 8), Ok(false));
    assert_eq!(storage_directory(&summary, 3, 9), Err(Nfsstat3::Stale));
    assert_eq!(storage_directory(&summary, 2, 7), Err(Nfsstat3::Stale));
    assert_eq!(object_directory(&summary, 3, 7, true), Ok(true));
    assert_eq!(object_directory(&summary, 3, 7, false), Err(Nfsstat3::Notdir));
    assert_eq!(object_directory(&summary, 4, 7, true), Err(Nfsstat3::Stale));
}

#[test]
fn staged_files_are_regular_files_of_their_size() {
    let t = Nfstime3 { seconds: 9, nseconds: 1 };
    let attrs = staged_file_attrs(12, 501, 20, 300, t);
    assert_eq!(attrs.ftype, Ftype3::Reg);
    assert_eq!(attrs.mode, 0o644);
    assert_eq!(attrs.size, 300);
    assert_eq!(attrs.used, 300);
    assert_eq!(attrs.fileid, 12);
    assert_eq!(attrs.mtime, t);
}

#[test]
fn device_and_storage_entries_carry_their_handles() {
    let named = named_devices(vec![device("Pixel", "S1", vec![])]);
    let entries = device_entries(named);
    assert_eq!(entries, vec![("Pixel".to_owned(), NodeHandle::Device { key: "S1".into(), generation: 3 })]);
    let storages = named_storages(vec![storage(7, "Internal", 10, 5)]);
    let entries = storage_entries(&"S1".to_owned(), 3, storages);
    assert_eq!(
        entries,
        vec![(
            "Internal".to_owned(),
            NodeHandle::Storage { device_key: "S1".into(), generation: 3, storage_id: 7 }
        )]
    );
}
