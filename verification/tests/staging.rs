use mtpdrive_core::staging::{
    copied_record, created_record, is_expired_leftover, is_finder_metadata, CommitPlan,
    FAILED_RETENTION_SECS,
};

#[test]
fn finder_metadata_is_recognized() {
    assert!(is_finder_metadata(".DS_Store"));
    assert!(is_finder_metadata("._photo.jpg"));
    assert!(!is_finder_metadata(".env"));
}

#[test]
fn staging_finder_metadata_is_recognized() {
    assert!(is_finder_metadata(".DS_Store"));
    assert!(is_finder_metadata("._photo.jpg"));
    assert!(!is_finder_metadata(".env"));
}

#[test]
fn other_finder_folders_stay_local_too() {
    assert!(is_finder_metadata(".Trashes"));
    assert!(is_finder_metadata(".fseventsd"));
    assert!(is_finder_metadata(".Spotlight-V100"));
    assert!(!is_finder_metadata("."));
    assert!(!is_finder_metadata("photo.jpg"));
}

#[test]
fn a_new_file_is_uploaded_and_a_copied_one_replaced() {
    let mut created = created_record("phone".into(), 1, 2, None, "note.txt".into());
    assert!(created.dirty);
    assert_eq!(created.commit_plan(), CommitPlan::Upload);
    assert_eq!(created.object_to_delete(), None);
    created.committed(40);
    assert_eq!(created.commit_plan(), CommitPlan::Nothing);
    assert_eq!(created.object_to_delete(), Some(40));
    created.touch();
    assert_eq!(created.revision, 2);
    assert_eq!(created.commit_plan(), CommitPlan::Replace { old_handle: 40 });

    let copied = copied_record("phone".into(), 1, 2, 9, 0, "a.txt".into());
    assert_eq!(copied.parent, None);
    assert_eq!(copied.commit_plan(), CommitPlan::Nothing);
    let copied = copied_record("phone".into(), 1, 2, 9, 5, "a.txt".into());
    assert_eq!(copied.parent, Some(5));
}

#[test]
fn finder_metadata_is_only_marked_clean() {
    let mut record = created_record("phone".into(), 1, 2, Some(3), ".DS_Store".into());
    assert!(record.local_only);
    assert_eq!(record.commit_plan(), CommitPlan::MarkClean);
    record.mark_clean();
    assert!(!record.dirty);
    record.rename(None, "real.txt".into());
    assert!(!record.local_only);
    assert!(record.dirty);
    assert_eq!(record.revision, 2);
    assert!(record.is_in("phone", 1, 2, None));
    assert!(!record.is_in("phone", 1, 2, Some(3)));
}

#[test]
fn a_commit_is_due_only_for_the_revision_it_was_scheduled_for() {
    let mut record = created_record("phone".into(), 1, 2, None, "a".into());
    assert!(record.commit_due(1));
    record.touch();
    assert!(!record.commit_due(1));
    assert!(record.commit_due(2));
    record.revision = u64::MAX;
    record.touch();
    assert_eq!(record.revision, u64::MAX);
}

use mtpdrive_core::error::Error;
use mtpdrive_core::staging::{
    backup_name, replace_step, start_replacement, upload_name, ReplaceAction, ReplacePhase,
    StagingArea,
};

#[test]
fn temporary_names_carry_the_simple_id() {
    assert_eq!(upload_name(0xa1a2a3a4b1b2c1c2d1d2d3d4d5d6d7d8), ".mtpdrive-upload-a1a2a3a4b1b2c1c2d1d2d3d4d5d6d7d8");
    assert_eq!(backup_name(1), ".mtpdrive-backup-00000000000000000000000000000001");
}

fn start() -> (mtpdrive_core::staging::Replacement, ReplaceAction) {
    start_replacement(5, "note.txt".to_owned(), ".tmp".to_owned(), ".bak".to_owned())
}

#[test]
fn a_replacement_renames_the_upload_into_place() {
    let (state, action) = start();
    assert!(matches!(action, ReplaceAction::Upload { ref name } if name == ".tmp"));
    let (state, action) = replace_step(state, Ok(9));
    assert!(matches!(action, ReplaceAction::Rename { handle: 5, ref name } if name == ".bak"));
    let (state, action) = replace_step(state, Ok(0));
    assert!(matches!(action, ReplaceAction::Rename { handle: 9, ref name } if name == "note.txt"));
    let (state, action) = replace_step(state, Ok(0));
    assert!(matches!(action, ReplaceAction::Delete { handle: 5 }));
    let (_, action) = replace_step(state, Err(Error::NotFound));
    assert!(matches!(action, ReplaceAction::Finish(Ok(9))));
}

#[test]
fn a_failed_rename_restores_the_old_object() {
    let (state, _) = start();
    let (state, _) = replace_step(state, Ok(9));
    let (state, _) = replace_step(state, Ok(0));
    let (state, action) = replace_step(state, Err(Error::Operation("busy".to_owned())));
    assert!(matches!(action, ReplaceAction::Rename { handle: 5, ref name } if name == "note.txt"));
    assert!(matches!(state.phase, ReplacePhase::RestoringOld { temporary: 9, .. }));
    let (state, action) = replace_step(state, Ok(0));
    assert!(matches!(action, ReplaceAction::Delete { handle: 9 }));
    let (_, action) = replace_step(state, Ok(0));
    assert!(matches!(action, ReplaceAction::Finish(Err(Error::Operation(ref m))) if m == "busy"));
}

#[test]
fn devices_without_rename_delete_and_upload_again() {
    let (state, _) = start();
    let (state, _) = replace_step(state, Ok(9));
    let (state, action) = replace_step(state, Err(Error::Unsupported("rename".to_owned())));
    assert!(matches!(action, ReplaceAction::Delete { handle: 9 }));
    let (state, action) = replace_step(state, Err(Error::NotFound));
    assert!(matches!(action, ReplaceAction::Delete { handle: 5 }));
    let (state, action) = replace_step(state, Ok(0));
    assert!(matches!(action, ReplaceAction::Upload { ref name } if name == "note.txt"));
    let (_, action) = replace_step(state, Ok(12));
    assert!(matches!(action, ReplaceAction::Finish(Ok(12))));

    let (state, _) = start();
    let (_, action) = replace_step(state, Err(Error::Disconnected));
    assert!(matches!(action, ReplaceAction::Finish(Err(Error::Disconnected))));
}

#[test]
fn the_staging_area_finds_files_by_directory_and_by_object() {
    let mut area = StagingArea::new();
    area.create(3, "phone".to_owned(), 1, 2, None, "b.txt".to_owned());
    area.create(1, "phone".to_owned(), 1, 2, None, "a.txt".to_owned());
    area.create(2, "phone".to_owned(), 1, 2, Some(7), "c.txt".to_owned());
    let kept = area.stage_existing(4, "phone".to_owned(), 1, 2, 40, 0, "copy.txt".to_owned());
    assert_eq!(kept, 4);
    assert_eq!(area.stage_existing(5, "phone".to_owned(), 1, 2, 40, 0, "copy.txt".to_owned()), 4);
    assert_eq!(area.for_remote("phone", 1, 2, 40), Some(4));
    assert_eq!(area.for_remote("phone", 2, 2, 40), None);

    let listing = area.all_for_parent("phone", 1, 2, None);
    assert_eq!(
        listing,
        vec![
            ("a.txt".to_owned(), (1, false)),
            ("b.txt".to_owned(), (3, false)),
            ("copy.txt".to_owned(), (4, true)),
        ]
    );
    assert_eq!(area.find_child("phone", 1, 2, Some(7), "c.txt"), Some(2));
    assert_eq!(area.find_child("phone", 1, 2, None, "c.txt"), None);

    let mut dirty = area.dirty_ids();
    dirty.sort();
    assert_eq!(dirty, vec![1, 2, 3]);
    area.committed(1, 50).expect("committed");
    assert_eq!(area.for_remote("phone", 1, 2, 50), Some(1));
    assert!(!area.get(1).expect("file").dirty);
    area.touch(1).expect("touched");
    assert_eq!(area.get(1).expect("file").revision, 2);
    area.rename(1, Some(7), ".DS_Store".to_owned()).expect("renamed");
    assert!(area.get(1).expect("file").local_only);
    area.mark_clean(1).expect("clean");
    assert!(!area.get(1).expect("file").dirty);
    assert_eq!(area.remove(3).expect("removed").name, "b.txt");
    assert!(matches!(area.get(3), Err(Error::NotFound)));
    assert!(matches!(area.touch(3), Err(Error::NotFound)));
}

#[test]
fn leftover_files_expire_after_seven_days() {
    assert_eq!(FAILED_RETENTION_SECS, 7 * 24 * 60 * 60);
    assert!(!is_expired_leftover(Some((FAILED_RETENTION_SECS, 0)), true));
    assert!(is_expired_leftover(Some((FAILED_RETENTION_SECS, 1)), true));
    assert!(is_expired_leftover(Some((FAILED_RETENTION_SECS + 1, 0)), true));
    assert!(!is_expired_leftover(Some((FAILED_RETENTION_SECS + 1, 0)), false));
    assert!(!is_expired_leftover(None, true));
}
