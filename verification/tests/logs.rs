use mtpdrive_core::logs::LogStore;
use mtpdrive_core::model::LogLevel;

#[test]
fn records_are_incremental_and_queryable() {
    let mut store = LogStore::memory_only();
    let first = store.emit(LogLevel::Info, "test".to_owned(), "one".to_owned(), 0);
    let second = store.emit(LogLevel::Warn, "test".to_owned(), "two".to_owned(), 0);
    assert_eq!(store.after(first.id, 10), vec![second]);
}

#[test]
fn ids_keep_increasing_after_a_clear_and_limits_apply() {
    let mut store = LogStore::memory_only();
    assert!(store.can_emit());
    let first = store.emit(LogLevel::Info, "t".to_owned(), "a".to_owned(), 5);
    assert_eq!(first.id, 1);
    assert_eq!(first.unix_millis, 5);
    let second = store.emit(LogLevel::Debug, "t".to_owned(), "b".to_owned(), 6);
    let third = store.emit(LogLevel::Error, "t".to_owned(), "c".to_owned(), 7);
    assert_eq!(store.after(0, 2), vec![first, second.clone()]);
    assert_eq!(store.after(0, 0), vec![]);
    assert_eq!(store.after(third.id, 10), vec![]);
    store.clear();
    assert!(store.after(0, 10).is_empty());
    let fourth = store.emit(LogLevel::Info, "t".to_owned(), "d".to_owned(), 8);
    assert_eq!(fourth.id, 4);
}
