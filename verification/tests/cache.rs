use mtpdrive_core::cache::{DeviceCache, ListPlan, ObjectEntry, DIRECTORY_CACHE_TTL_MS, DIRECTORY_FULL_REFRESH_INTERVAL_MS};

fn cached_entry(handle: u64, parent: u64, name: &str, is_dir: bool) -> ObjectEntry {
    ObjectEntry {
        handle,
        storage_id: 7,
        parent,
        name: name.to_owned(),
        size: 0,
        is_dir,
        created: None,
        modified: None,
    }
}

const NOW: u64 = 1_000_000;

#[test]
fn directory_listing_populates_metadata_cache() {
    let now = NOW;
    let mut cache = DeviceCache::default();
    let entries = vec![
        cached_entry(11, 0, "folder", true),
        cached_entry(12, 0, "photo.jpg", false),
    ];
    cache.store_listing(7, None, entries.clone(), now);

    assert_eq!(
        cache
            .listing(7, None, now)
            .expect("cached directory")
            .0
            .len(),
        2
    );
    assert_eq!(
        cache.object(7, 12).expect("cached object").name,
        "photo.jpg"
    );
}

#[test]
fn deleting_an_object_updates_its_directory_and_keeps_sibling_metadata() {
    let now = NOW;
    let mut cache = DeviceCache::default();
    cache.store_listing(
        7,
        None,
        vec![
            cached_entry(11, 0, "folder", true),
            cached_entry(12, 0, "photo.jpg", false),
        ],
        now,
    );
    cache.store_listing(
        7,
        Some(11),
        vec![cached_entry(13, 11, "child.txt", false)],
        now,
    );

    cache.remove_object(7, 11, now);

    assert_eq!(
        cache.listing(7, None, now).expect("cached parent").0,
        vec![cached_entry(12, 0, "photo.jpg", false)]
    );
    assert!(cache.listing(7, Some(11), now).is_none());
    assert!(cache.object(7, 11).is_none());
    assert!(cache.object(7, 13).is_none());
    assert!(cache.object(7, 12).is_some());
}

#[test]
fn stale_directory_is_returned_while_one_refresh_runs() {
    let now = NOW;
    let loaded_at = now - DIRECTORY_CACHE_TTL_MS - 1;
    let mut cache = DeviceCache::default();
    cache.store_listing(
        7,
        None,
        vec![cached_entry(12, 0, "photo.jpg", false)],
        loaded_at,
    );

    let (entries, fresh) = cache.listing(7, None, now).expect("stale directory");
    assert_eq!(entries.len(), 1);
    assert!(!fresh);
    let (epoch, _cancel) = cache.begin_refresh(7, None).expect("first refresh");
    assert!(cache.begin_refresh(7, None).is_none());
    assert!(cache.finish_refresh(
        7,
        None,
        epoch,
        Some(vec![cached_entry(13, 0, "new.jpg", false)]),
        now,
    ));
    let (entries, fresh) = cache.listing(7, None, now).expect("fresh directory");
    assert!(fresh);
    assert_eq!(entries[0].name, "new.jpg");
}

#[test]
fn matching_object_count_revalidates_without_replacing_metadata() {
    let now = NOW;
    let loaded_at = now - DIRECTORY_CACHE_TTL_MS - 1;
    let mut cache = DeviceCache::default();
    cache.store_listing(
        7,
        None,
        vec![cached_entry(12, 0, "photo.jpg", false)],
        loaded_at,
    );
    let (epoch, _cancel) = cache.begin_refresh(7, None).expect("background refresh");

    assert!(cache.can_count_validate(7, None, epoch, 1, now));
    assert!(cache.finish_count_validation(7, None, epoch, now));

    let (entries, fresh) = cache.listing(7, None, now).expect("validated directory");
    assert!(fresh);
    assert_eq!(entries[0].name, "photo.jpg");
}

#[test]
fn count_validation_falls_back_to_full_scan_periodically() {
    let now = NOW;
    let fully_loaded_at = now - DIRECTORY_FULL_REFRESH_INTERVAL_MS;
    let mut cache = DeviceCache::default();
    cache.store_listing(
        7,
        None,
        vec![cached_entry(12, 0, "photo.jpg", false)],
        fully_loaded_at,
    );
    let (epoch, _cancel) = cache.begin_refresh(7, None).expect("background refresh");

    assert!(!cache.can_count_validate(7, None, epoch, 1, now));
}

#[test]
fn object_event_is_merged_into_a_cached_directory() {
    let now = NOW;
    let mut cache = DeviceCache::default();
    cache.store_listing(7, None, vec![cached_entry(12, 0, "photo.jpg", false)], now);

    cache.upsert_object(cached_entry(13, 0, "new.jpg", false), now);

    let (entries, fresh) = cache.listing(7, None, now).expect("updated directory");
    assert!(fresh);
    assert_eq!(entries.len(), 2);
    assert!(entries.iter().any(|entry| entry.name == "new.jpg"));
}

#[test]
fn invalidation_cancels_an_in_flight_directory_refresh() {
    let now = NOW;
    let mut cache = DeviceCache::default();
    cache.store_listing(7, None, vec![cached_entry(12, 0, "photo.jpg", false)], now);
    let (epoch, cancel) = cache.begin_refresh(7, None).expect("background refresh");

    cache.invalidate_directory(7, None);

    assert!(cancel.is_cancelled());
    assert!(!cache.finish_refresh(
        7,
        None,
        epoch,
        Some(vec![cached_entry(13, 0, "stale.jpg", false)]),
        now,
    ));
    assert!(cache.listing(7, None, now).is_none());
}

#[test]
fn clearing_starts_a_new_epoch_that_refuses_old_refreshes() {
    let now = NOW;
    let mut cache = DeviceCache::default();
    cache.store_listing(7, None, vec![cached_entry(12, 0, "photo.jpg", false)], now);
    let (epoch, cancel) = cache.begin_refresh(7, None).expect("background refresh");
    cache.clear();
    assert!(cancel.is_cancelled());
    assert!(!cache.refresh_is_current(7, None, epoch));
    assert!(!cache.finish_refresh(7, None, epoch, Some(Vec::new()), now));
    assert!(cache.listing(7, None, now).is_none());
    assert!(cache.object(7, 12).is_none());
}

#[test]
fn a_refresh_that_read_nothing_ends_without_changing_the_listing() {
    let now = NOW;
    let mut cache = DeviceCache::default();
    cache.store_listing(7, None, vec![cached_entry(12, 0, "photo.jpg", false)], now - 20_000);
    let (epoch, _cancel) = cache.begin_refresh(7, None).expect("background refresh");
    assert!(!cache.finish_refresh(7, None, epoch, None, now));
    let (entries, fresh) = cache.listing(7, None, now).expect("kept directory");
    assert!(!fresh);
    assert_eq!(entries, vec![cached_entry(12, 0, "photo.jpg", false)]);
    assert!(cache.begin_refresh(7, None).is_some());
}

#[test]
fn unchanged_refresh_reports_no_change() {
    let now = NOW;
    let mut cache = DeviceCache::default();
    cache.store_listing(7, None, vec![cached_entry(12, 0, "photo.jpg", false)], now - 20_000);
    let (epoch, _cancel) = cache.begin_refresh(7, None).expect("background refresh");
    assert!(!cache.finish_refresh(
        7,
        None,
        epoch,
        Some(vec![cached_entry(12, 0, "photo.jpg", false)]),
        now
    ));
    assert!(cache.listing(7, None, now).expect("directory").1);
}

#[test]
fn relisting_drops_metadata_of_objects_that_left() {
    let now = NOW;
    let mut cache = DeviceCache::default();
    cache.store_listing(
        7,
        None,
        vec![cached_entry(11, 0, "a", false), cached_entry(12, 0, "b", false)],
        now,
    );
    cache.store_listing(7, None, vec![cached_entry(12, 0, "b", false)], now);
    assert!(cache.object(7, 11).is_none());
    assert!(cache.object(7, 12).is_some());
}

#[test]
fn root_parent_encodings_share_one_listing() {
    let now = NOW;
    let mut cache = DeviceCache::default();
    cache.store_listing(7, Some(0), vec![cached_entry(12, 0, "photo.jpg", false)], now);
    assert!(cache.listing(7, None, now).is_some());
}

#[test]
fn invalidating_a_folder_forgets_its_subtree_and_its_parent_listing() {
    let now = NOW;
    let mut cache = DeviceCache::default();
    cache.store_listing(
        7,
        None,
        vec![cached_entry(11, 0, "folder", true), cached_entry(12, 0, "photo.jpg", false)],
        now,
    );
    cache.store_listing(7, Some(11), vec![cached_entry(13, 11, "child.txt", false)], now);
    cache.invalidate_object(7, 11);
    assert!(cache.listing(7, None, now).is_none());
    assert!(cache.listing(7, Some(11), now).is_none());
    assert!(cache.object(7, 11).is_none());
    assert!(cache.object(7, 13).is_none());
    assert!(cache.object(7, 12).is_some());
}

#[test]
fn removing_a_handle_reaches_every_storage_that_knows_it() {
    let now = NOW;
    let mut cache = DeviceCache::default();
    cache.store_listing(7, None, vec![cached_entry(12, 0, "photo.jpg", false)], now);
    let mut other = cached_entry(12, 0, "other.jpg", false);
    other.storage_id = 8;
    cache.store_listing(8, None, vec![other], now);
    cache.remove_handle(12, now);
    assert!(cache.object(7, 12).is_none());
    assert!(cache.object(8, 12).is_none());
    assert!(cache.listing(7, None, now).expect("listing").0.is_empty());
    assert!(cache.listing(8, None, now).expect("listing").0.is_empty());
    assert_eq!(cache.storage_of_handle(12), None);
}

#[test]
fn a_moved_object_leaves_its_old_directory() {
    let now = NOW;
    let mut cache = DeviceCache::default();
    cache.store_listing(
        7,
        None,
        vec![cached_entry(11, 0, "folder", true), cached_entry(12, 0, "photo.jpg", false)],
        now - 50,
    );
    cache.store_listing(7, Some(11), Vec::new(), now - 50);
    cache.store_object(cached_entry(12, 11, "photo.jpg", false), now);
    let root = cache.listing(7, None, now).expect("root").0;
    assert_eq!(root, vec![cached_entry(11, 0, "folder", true)]);
    let folder = cache.listing(7, Some(11), now).expect("folder").0;
    assert_eq!(folder, vec![cached_entry(12, 11, "photo.jpg", false)]);
    assert_eq!(cache.storage_of_handle(12), Some(7));
}

#[test]
fn listings_are_served_fresh_stale_or_fetched() {
    let mut cache = DeviceCache::default();
    assert!(matches!(cache.plan_list(7, None, NOW), ListPlan::Fetch));
    cache.store_listing(7, None, vec![cached_entry(11, 0, "a", false)], NOW);
    match cache.plan_list(7, None, NOW + DIRECTORY_CACHE_TTL_MS) {
        ListPlan::Cached(entries) => assert_eq!(entries.len(), 1),
        _ => panic!("a fresh listing is served from the cache"),
    }
    match cache.plan_list(7, None, NOW + DIRECTORY_CACHE_TTL_MS + 1) {
        ListPlan::Stale(entries, Some(_)) => assert_eq!(entries[0].name, "a"),
        _ => panic!("a stale listing is served and refreshed"),
    }
    match cache.plan_list(7, None, NOW + DIRECTORY_CACHE_TTL_MS + 1) {
        ListPlan::Stale(_, None) => {}
        _ => panic!("one refresh runs at a time"),
    }
}

#[test]
fn a_cancelled_refresh_stores_nothing() {
    let mut cache = DeviceCache::default();
    cache.store_listing(7, None, vec![cached_entry(11, 0, "a", false)], NOW);
    let (epoch, _cancel) = cache.begin_refresh(7, None).expect("background refresh");
    assert!(cache.refresh_is_current_given(7, None, epoch, false));
    assert!(!cache.refresh_is_current_given(7, None, epoch, true));
    assert!(!cache.refresh_is_current_given(7, None, epoch + 1, false));
    assert!(cache.can_count_validate_given(7, None, epoch, 1, NOW, false));
    assert!(!cache.can_count_validate_given(7, None, epoch, 1, NOW, true));
    assert!(!cache.can_count_validate_given(7, None, epoch, 2, NOW, false));
    assert!(!cache.finish_refresh_given(7, None, epoch, Some(Vec::new()), NOW + 1, true));
    assert_eq!(cache.listing(7, None, NOW).expect("kept").0.len(), 1);
    assert!(!cache.finish_count_validation_given(7, None, epoch, NOW + 1, true));
    assert!(cache.refresh_is_current_given(7, None, epoch, false));
    assert!(cache.finish_refresh_given(7, None, epoch, Some(Vec::new()), NOW + 1, false));
    assert_eq!(cache.listing(7, None, NOW + 1).expect("stored").0.len(), 0);
    assert!(!cache.refresh_is_current_given(7, None, epoch, false));
}

#[test]
fn a_count_validation_renews_the_listing() {
    let mut cache = DeviceCache::default();
    cache.store_listing(7, None, vec![cached_entry(11, 0, "a", false)], NOW);
    let (epoch, _cancel) = cache.begin_refresh(7, None).expect("background refresh");
    let later = NOW + DIRECTORY_CACHE_TTL_MS + 1;
    assert!(!cache.listing(7, None, later).expect("cached").1);
    assert!(cache.finish_count_validation_given(7, None, epoch, later, false));
    assert!(cache.listing(7, None, later).expect("cached").1);
    assert!(!cache.finish_count_validation_given(7, None, epoch, later, false));
}
