use mtpdrive_core::cache::ObjectEntry;
use mtpdrive_core::listing::{
    find_entry, find_object, merge_staged, name_less, object_entries, sort_by_name,
    with_dot_entries,
};
use mtpdrive_core::nfs::NodeHandle;

fn object(handle: u64, name: &str) -> ObjectEntry {
    ObjectEntry {
        handle,
        storage_id: 2,
        parent: 0,
        name: name.to_owned(),
        size: 0,
        is_dir: false,
        created: None,
        modified: None,
    }
}

#[test]
fn names_sort_by_code_point_and_keep_equal_names_in_order() {
    assert!(name_less("B", "a"));
    assert!(name_less("a", "ab"));
    assert!(!name_less("ab", "ab"));
    assert!(name_less("z", "é"));
    let sorted = sort_by_name(vec![
        ("b".to_owned(), NodeHandle::Staged(1)),
        ("a".to_owned(), NodeHandle::Staged(2)),
        ("b".to_owned(), NodeHandle::Staged(3)),
        ("A".to_owned(), NodeHandle::Staged(4)),
    ]);
    let ids: Vec<NodeHandle> = sorted.into_iter().map(|(_, h)| h).collect();
    assert_eq!(
        ids,
        vec![NodeHandle::Staged(4), NodeHandle::Staged(2), NodeHandle::Staged(1), NodeHandle::Staged(3)]
    );
}

#[test]
fn listings_start_with_dot_entries() {
    let dir = NodeHandle::Device { key: "k".to_owned(), generation: 1 };
    let listing = with_dot_entries(
        &dir,
        Some(NodeHandle::Root),
        vec![("z".to_owned(), NodeHandle::Staged(1)), ("a".to_owned(), NodeHandle::Staged(2))],
    );
    let names: Vec<&str> = listing.iter().map(|(n, _)| n.as_str()).collect();
    assert_eq!(names, vec![".", "..", "a", "z"]);
    assert_eq!(listing[0].1, dir);
    assert_eq!(listing[1].1, NodeHandle::Root);
    let root = with_dot_entries(&NodeHandle::Root, None, vec![]);
    assert_eq!(root[1].1, NodeHandle::Root);
}

#[test]
fn staged_files_replace_device_entries_of_the_same_name() {
    let key = "phone".to_owned();
    let entries = object_entries(&key, 1, 2, vec![object(10, "a.txt"), object(11, "b.txt")]);
    assert_eq!(
        entries[0],
        (
            "a.txt".to_owned(),
            NodeHandle::Object { device_key: key.clone(), generation: 1, storage_id: 2, object_id: 10 }
        )
    );
    let merged = merge_staged(
        entries,
        &vec![("a.txt".to_owned(), (7, false)), ("b.txt".to_owned(), (8, true)), ("c".to_owned(), (9, false))],
    );
    let names: Vec<&str> = merged.iter().map(|(n, _)| n.as_str()).collect();
    assert_eq!(names, vec!["b.txt", "a.txt", "c"]);
    assert_eq!(merged[1].1, NodeHandle::Staged(7));
    assert_eq!(find_entry(&merged, "c"), Some(NodeHandle::Staged(9)));
    assert_eq!(find_entry(&merged, "d"), None);
}

#[test]
fn lookups_take_the_first_object_of_a_name() {
    let objects = vec![object(1, "x"), object(2, "y"), object(3, "y")];
    assert_eq!(find_object(&objects, "y"), Some(2));
    assert_eq!(find_object(&objects, "z"), None);
}
