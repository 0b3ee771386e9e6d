use transcript_sync::transcript::{StoreError, SyncState, Transcript, TranscriptStore};

fn add(store: &mut TranscriptStore, content: &str, now: u64) -> Transcript {
    store.add(content.to_string(), now).expect("add")
}

#[test]
fn add_assigns_fresh_ids_and_unsynced_state() {
    let mut store = TranscriptStore::new();
    let a = add(&mut store, "a", 100);
    let b = add(&mut store, "b", 200);
    assert_eq!(a.id, 0);
    assert_eq!(b.id, 1);
    assert_eq!(a.content, "a");
    assert_eq!(b.created_at, 200);
    assert_eq!(a.sync_state, SyncState::Unsynced);
    assert_eq!(store.next_id(), 2);
    assert_eq!(store.count_unsynced(), 2);
}

#[test]
fn listing_is_newest_first_without_duplicates_or_omissions() {
    let mut store = TranscriptStore::new();
    for (i, c) in ["a", "b", "c", "d"].iter().enumerate() {
        add(&mut store, c, 10 * i as u64);
    }
    let list = store.list();
    let contents: Vec<&str> = list.iter().map(|t| t.content.as_str()).collect();
    assert_eq!(contents, vec!["d", "c", "b", "a"]);
    let ids: Vec<u64> = list.iter().map(|t| t.id).collect();
    assert_eq!(ids, vec![3, 2, 1, 0]);
    for w in list.windows(2) {
        assert!(w[0].created_at >= w[1].created_at);
    }
}

#[test]
fn clock_going_back_keeps_creation_order() {
    let mut store = TranscriptStore::new();
    add(&mut store, "first", 50);
    let second = add(&mut store, "second", 20);
    assert_eq!(second.created_at, 50);
    let third = add(&mut store, "third", 70);
    assert_eq!(third.created_at, 70);
    assert_eq!(store.list()[0].content, "third");
}

#[test]
fn empty_store_lists_nothing() {
    let store = TranscriptStore::new();
    assert!(store.list().is_empty());
    assert!(store.unsynced().is_empty());
    assert_eq!(store.count_unsynced(), 0);
}

#[test]
fn mark_synced_twice_is_idempotent() {
    let mut store = TranscriptStore::new();
    let a = add(&mut store, "a", 1);
    add(&mut store, "b", 2);
    assert_eq!(store.mark_synced(a.id), Ok(()));
    let once: Vec<(u64, SyncState)> = store.list().iter().map(|t| (t.id, t.sync_state)).collect();
    assert_eq!(store.mark_synced(a.id), Ok(()));
    let twice: Vec<(u64, SyncState)> = store.list().iter().map(|t| (t.id, t.sync_state)).collect();
    assert_eq!(once, twice);
    assert_eq!(once, vec![(1, SyncState::Unsynced), (0, SyncState::Synced)]);
    assert_eq!(store.count_unsynced(), 1);
}

#[test]
fn mark_synced_unknown_id_is_not_found() {
    let mut store = TranscriptStore::new();
    add(&mut store, "a", 1);
    assert_eq!(store.mark_synced(7), Err(StoreError::NotFound));
    assert_eq!(store.count_unsynced(), 1);
}

#[test]
fn unsynced_snapshot_is_oldest_first() {
    let mut store = TranscriptStore::new();
    add(&mut store, "a", 1);
    let b = add(&mut store, "b", 2);
    add(&mut store, "c", 3);
    store.mark_synced(b.id).unwrap();
    let pending: Vec<String> = store.unsynced().into_iter().map(|t| t.content).collect();
    assert_eq!(pending, vec!["a".to_string(), "c".to_string()]);
    assert!(store.is_unsynced(0));
    assert!(!store.is_unsynced(b.id));
    assert!(!store.is_unsynced(99));
}

fn record(id: u64, created_at: u64, synced: bool) -> Transcript {
    Transcript {
        id,
        content: format!("r{}", id),
        created_at,
        sync_state: if synced { SyncState::Synced } else { SyncState::Unsynced },
    }
}

#[test]
fn restore_keeps_records_and_sync_state() {
    let records = vec![record(0, 5, true), record(2, 5, false), record(3, 9, false)];
    let mut store = TranscriptStore::restore(records, 4).expect("restore");
    assert_eq!(store.count_unsynced(), 2);
    assert_eq!(store.next_id(), 4);
    let t = add(&mut store, "new", 1);
    assert_eq!(t.id, 4);
    assert_eq!(t.created_at, 9);
}

#[test]
fn restore_rejects_corrupt_records() {
    let out_of_order = vec![record(2, 5, false), record(1, 6, false)];
    assert_eq!(TranscriptStore::restore(out_of_order, 9).err(), Some(StoreError::StorageError));
    let time_back = vec![record(1, 6, false), record(2, 5, false)];
    assert_eq!(TranscriptStore::restore(time_back, 9).err(), Some(StoreError::StorageError));
    let id_too_large = vec![record(1, 6, false)];
    assert_eq!(TranscriptStore::restore(id_too_large, 1).err(), Some(StoreError::StorageError));
}

#[test]
fn add_fails_with_storage_error_when_ids_run_out() {
    let mut store = TranscriptStore::restore(vec![record(5, 1, false)], u64::MAX).expect("restore");
    assert_eq!(store.add("x".to_string(), 2).err(), Some(StoreError::StorageError));
    assert_eq!(store.list().len(), 1);
    assert_eq!(store.next_id(), u64::MAX);
}
