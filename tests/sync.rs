use transcript_sync::device::{DeviceLink, DeviceStatus};
use transcript_sync::engine::{run_once, SkipReason, SyncPass, SyncResult, Transport};
use transcript_sync::transcript::{SyncState, Transcript, TranscriptStore};

/// Delivers every record except those whose id is listed as faulty.
struct FakeTransport {
    faulty: Vec<u64>,
    seen: Vec<u64>,
}

impl FakeTransport {
    fn reliable() -> FakeTransport {
        FakeTransport { faulty: Vec::new(), seen: Vec::new() }
    }
}

impl Transport for FakeTransport {
    fn transfer(&mut self, record: &Transcript) -> bool {
        self.seen.push(record.id);
        !self.faulty.contains(&record.id)
    }
}

fn store_with(contents: &[&str]) -> TranscriptStore {
    let mut store = TranscriptStore::new();
    for (i, c) in contents.iter().enumerate() {
        store.add(c.to_string(), i as u64 + 1).unwrap();
    }
    store
}

#[test]
fn three_transcripts_sync_once_connected() {
    let mut store = store_with(&["a", "b", "c"]);
    let mut link = DeviceLink::new();
    let mut transport = FakeTransport::reliable();
    assert_eq!(store.count_unsynced(), 3);
    assert_eq!(
        run_once(&mut store, &mut link, &mut transport, 10),
        SyncResult::Skipped(SkipReason::NotConnected)
    );
    assert!(link.toggle_connection());
    assert_eq!(
        run_once(&mut store, &mut link, &mut transport, 20),
        SyncResult::Completed { synced_count: 3, failed_count: 0 }
    );
    assert_eq!(store.count_unsynced(), 0);
    assert_eq!(link.get().last_sync_at, Some(20));
}

#[test]
fn transfer_fault_leaves_transcript_unsynced_until_next_pass() {
    let mut store = TranscriptStore::new();
    let mut link = DeviceLink::new();
    link.toggle_connection();
    let t = store.add("only".to_string(), 1).unwrap();
    let mut transport = FakeTransport { faulty: vec![t.id], seen: Vec::new() };
    assert_eq!(
        run_once(&mut store, &mut link, &mut transport, 5),
        SyncResult::Completed { synced_count: 0, failed_count: 1 }
    );
    assert!(store.is_unsynced(t.id));
    assert_eq!(store.count_unsynced(), 1);
    transport.faulty.clear();
    assert_eq!(
        run_once(&mut store, &mut link, &mut transport, 6),
        SyncResult::Completed { synced_count: 1, failed_count: 0 }
    );
    assert_eq!(store.count_unsynced(), 0);
    assert_eq!(store.list()[0].sync_state, SyncState::Synced);
}

#[test]
fn disconnected_pass_changes_nothing() {
    let mut store = store_with(&["a", "b"]);
    store.mark_synced(0).unwrap();
    let mut link = DeviceLink::new();
    let mut transport = FakeTransport::reliable();
    let before: Vec<(u64, SyncState)> = store.list().iter().map(|t| (t.id, t.sync_state)).collect();
    assert_eq!(
        run_once(&mut store, &mut link, &mut transport, 9),
        SyncResult::Skipped(SkipReason::NotConnected)
    );
    let after: Vec<(u64, SyncState)> = store.list().iter().map(|t| (t.id, t.sync_state)).collect();
    assert_eq!(before, after);
    assert!(transport.seen.is_empty());
    assert_eq!(link.get(), DeviceStatus { connected: false, last_sync_at: None });
}

#[test]
fn unsynced_count_never_rises_across_passes() {
    let mut store = store_with(&["a", "b", "c", "d"]);
    let mut link = DeviceLink::new();
    link.toggle_connection();
    let mut transport = FakeTransport { faulty: vec![1, 3], seen: Vec::new() };
    let mut last = store.count_unsynced();
    for now in 0..3u64 {
        run_once(&mut store, &mut link, &mut transport, now);
        let count = store.count_unsynced();
        assert!(count <= last);
        last = count;
        transport.faulty.pop();
    }
    assert_eq!(last, 0);
}

#[test]
fn pass_transfers_oldest_first_and_mixes_outcomes() {
    let mut store = store_with(&["a", "b", "c"]);
    let mut link = DeviceLink::new();
    link.toggle_connection();
    let mut transport = FakeTransport { faulty: vec![1], seen: Vec::new() };
    assert_eq!(
        run_once(&mut store, &mut link, &mut transport, 4),
        SyncResult::Completed { synced_count: 2, failed_count: 1 }
    );
    assert_eq!(transport.seen, vec![0, 1, 2]);
    assert_eq!(store.count_unsynced(), 1);
    assert!(store.is_unsynced(1));
}

#[test]
fn pass_over_empty_store_completes_with_zero_counts() {
    let mut store = TranscriptStore::new();
    let mut link = DeviceLink::new();
    link.toggle_connection();
    assert_eq!(
        run_once(&mut store, &mut link, &mut FakeTransport::reliable(), 3),
        SyncResult::Completed { synced_count: 0, failed_count: 0 }
    );
    assert_eq!(link.get(), DeviceStatus { connected: true, last_sync_at: Some(3) });
}

#[test]
fn interleaved_passes_never_count_a_transcript_twice() {
    let mut store = store_with(&["a", "b", "c"]);
    let mut first = SyncPass::begin(true, &store).unwrap();
    let mut second = SyncPass::begin(true, &store).unwrap();
    let mut link = DeviceLink::new();
    link.toggle_connection();
    loop {
        let mut progressed = false;
        if first.next_record().is_some() {
            first.record(&mut store, true);
            progressed = true;
        }
        if second.next_record().is_some() {
            second.record(&mut store, true);
            progressed = true;
        }
        if !progressed {
            break;
        }
    }
    let a = first.finish(&mut link, 7);
    let b = second.finish(&mut link, 8);
    let total = match (a, b) {
        (
            SyncResult::Completed { synced_count: x, failed_count: 0 },
            SyncResult::Completed { synced_count: y, failed_count: 0 },
        ) => x + y,
        other => panic!("unexpected results {:?}", other),
    };
    assert_eq!(total, 3);
    assert_eq!(store.count_unsynced(), 0);
    assert_eq!(link.get().last_sync_at, Some(8));
}

#[test]
fn records_added_during_a_pass_wait_for_the_next() {
    let mut store = store_with(&["a"]);
    let mut pass = SyncPass::begin(true, &store).unwrap();
    let late = store.add("late".to_string(), 9).unwrap();
    while pass.next_record().is_some() {
        pass.record(&mut store, true);
    }
    let mut link = DeviceLink::new();
    assert_eq!(
        pass.finish(&mut link, 1),
        SyncResult::Completed { synced_count: 1, failed_count: 0 }
    );
    assert!(store.is_unsynced(late.id));
    assert!(SyncPass::begin(false, &store).is_none());
}

#[test]
fn toggle_flips_only_connected() {
    let mut link = DeviceLink::new();
    assert_eq!(link.get(), DeviceStatus { connected: false, last_sync_at: None });
    assert!(link.toggle_connection());
    assert!(!link.toggle_connection());
    assert_eq!(link.get(), DeviceStatus { connected: false, last_sync_at: None });
}
