use vstd::prelude::*;
use crate::device::{DeviceLink, DeviceStatus};
use crate::transcript::{
    has_unsynced, lemma_mark_in_count, lemma_mark_in_keeps_others, lemma_unsynced_of_members,
    mark_in, records_ordered, synced_copy, unsynced_of, Transcript, TranscriptStore,
};

verus! {

/// Why a pass did nothing.
#[derive(Clone, Copy, Debug, PartialEq, Eq, Structural)]
pub enum SkipReason {
    NotConnected,
}

/// The outcome of one reconciliation pass.
#[derive(Clone, Copy, Debug, PartialEq, Eq, Structural)]
pub enum SyncResult {
    Completed { synced_count: usize, failed_count: usize },
    Skipped(SkipReason),
}

/// The simulated transfer of one record to the device; `true` when it was delivered.
pub trait Transport {
    fn transfer(&mut self, record: &Transcript) -> bool;
}

/// What a pass in progress holds: its own snapshot of the records to deliver,
/// how far it got, and what it has counted.
pub ghost struct PassView {
    pub pending: Seq<Transcript>,
    pub pos: nat,
    pub synced: nat,
    pub failed: nat,
}

/// One reconciliation pass, driven one record at a time so that no lock
/// need be held while a transfer is in flight.
pub struct SyncPass {
    pending: Vec<Transcript>,
    pos: usize,
    synced: usize,
    failed: usize,
}

impl View for SyncPass {
    type V = PassView;

    closed spec fn view(&self) -> PassView {
        PassView {
            pending: self.pending@,
            pos: self.pos as nat,
            synced: self.synced as nat,
            failed: self.failed as nat,
        }
    }
}

impl SyncPass {
    pub open spec fn wf(&self) -> bool {
        &&& self@.pos <= self@.pending.len()
        &&& self@.synced + self@.failed <= self@.pos
    }

    /// Starts a pass over the store's undelivered records, oldest first;
    /// `None` when the device is not connected.
    pub fn begin(connected: bool, store: &TranscriptStore) -> (r: Option<SyncPass>)
        ensures
            r is None <==> !connected,
            match r {
                Some(p) => {
                    &&& p.wf()
                    &&& p@ == (PassView { pending: unsynced_of(store@), pos: 0, synced: 0, failed: 0 })
                },
                None => true,
            },
    {
        if !connected {
            return None;
        }
        Some(SyncPass { pending: store.unsynced(), pos: 0, synced: 0, failed: 0 })
    }

    /// The record to transfer next, if the pass is not done.
    pub fn next_record(&self) -> (r: Option<Transcript>)
        requires
            self.wf(),
        ensures
            r is Some <==> self@.pos < self@.pending.len(),
            r is Some ==> r == Some(self@.pending[self@.pos as int]),
    {
        if self.pos < self.pending.len() {
            Some(self.pending[self.pos].duplicate())
        } else {
            None
        }
    }

    /// Takes the outcome of the current record's transfer. A delivered record is marked
    /// synced and counted once, only if it was still undelivered (another pass may have
    /// delivered it meanwhile); a failed one stays undelivered and is counted as failed.
    pub fn record(&mut self, store: &mut TranscriptStore, delivered: bool)
        requires
            old(self).wf(),
            old(self)@.pos < old(self)@.pending.len(),
            old(store).wf(),
        ensures
            final(self).wf(),
            final(store).wf(),
            final(store).fresh_id() == old(store).fresh_id(),
            final(self)@.pending == old(self)@.pending,
            final(self)@.pos == old(self)@.pos + 1,
            ({
                let id = old(self)@.pending[old(self)@.pos as int].id;
                let claimed = delivered && has_unsynced(old(store)@, id);
                &&& delivered ==> final(store)@ == mark_in(old(store)@, id)
                &&& !delivered ==> final(store)@ == old(store)@
                &&& final(self)@.synced == old(self)@.synced + if claimed { 1nat } else { 0nat }
                &&& final(self)@.failed == old(self)@.failed + if delivered { 0nat } else { 1nat }
            }),
            final(self)@.synced + unsynced_of(final(store)@).len()
                == old(self)@.synced + unsynced_of(old(store)@).len(),
    {
        let n = self.pending.len();
        assert(self.pos < n);
        let id = self.pending[self.pos].id;
        proof {
            lemma_mark_in_count(store@, id);
        }
        if delivered {
            let fresh = store.is_unsynced(id);
            let _ = store.mark_synced(id);
            if fresh {
                self.synced = self.synced + 1;
            }
        } else {
            self.failed = self.failed + 1;
        }
        self.pos = self.pos + 1;
    }

    /// Ends a finished pass: stamps the device with clock reading `now` and reports the counts.
    pub fn finish(&self, link: &mut DeviceLink, now: u64) -> (r: SyncResult)
        requires
            self.wf(),
            self@.pos == self@.pending.len(),
        ensures
            r == (SyncResult::Completed {
                synced_count: self@.synced as usize,
                failed_count: self@.failed as usize,
            }),
            final(link)@.connected == old(link)@.connected,
            final(link)@.last_sync_at == Some(now),
    {
        link.record_sync_completion(now);
        SyncResult::Completed { synced_count: self.synced, failed_count: self.failed }
    }
}

/// Runs one whole reconciliation pass: when the device is connected, transfers each
/// record that was undelivered at the start, oldest first, marks the delivered ones
/// synced, and stamps the device with clock reading `now`; otherwise does nothing.
pub fn run_once<T: Transport>(
    store: &mut TranscriptStore,
    link: &mut DeviceLink,
    transport: &mut T,
    now: u64,
) -> (r: SyncResult)
    requires
        old(store).wf(),
    ensures
        final(store).wf(),
        final(store).fresh_id() == old(store).fresh_id(),
        !old(link)@.connected ==> {
            &&& r == SyncResult::Skipped(SkipReason::NotConnected)
            &&& final(store)@ == old(store)@
            &&& final(link)@ == old(link)@
        },
        old(link)@.connected ==> {
            &&& final(link)@ == (DeviceStatus { connected: true, last_sync_at: Some(now) })
            &&& final(store)@.len() == old(store)@.len()
            &&& forall|i: int|
                0 <= i < old(store)@.len() ==> #[trigger] final(store)@[i] == old(store)@[i]
                    || final(store)@[i] == synced_copy(old(store)@[i])
            &&& match r {
                SyncResult::Completed { synced_count, failed_count } => {
                    &&& synced_count + failed_count == unsynced_of(old(store)@).len()
                    &&& unsynced_of(final(store)@).len() + synced_count == unsynced_of(old(store)@).len()
                },
                SyncResult::Skipped(_) => false,
            }
        },
{
    let status = link.get();
    let ghost s0 = store@;
    match SyncPass::begin(status.connected, store) {
        None => SyncResult::Skipped(SkipReason::NotConnected),
        Some(mut pass) => {
            proof {
                lemma_unsynced_of_members(s0);
            }
            let ghost pending = pass@.pending;
            loop
                invariant
                    pass.wf(),
                    pass@.pending == pending,
                    pending == unsynced_of(s0),
                    records_ordered(pending),
                    store.wf(),
                    store.fresh_id() == old(store).fresh_id(),
                    store@.len() == s0.len(),
                    forall|i: int|
                        0 <= i < s0.len() ==> #[trigger] store@[i] == s0[i] || store@[i] == synced_copy(s0[i]),
                    forall|k: int| pass@.pos <= k < pending.len() ==> has_unsynced(store@, #[trigger] pending[k].id),
                    pass@.synced + pass@.failed == pass@.pos,
                    pass@.synced + unsynced_of(store@).len() == unsynced_of(s0).len(),
                ensures
                    pass@.pos == pending.len(),
                decreases pending.len() - pass@.pos,
            {
                match pass.next_record() {
                    None => break,
                    Some(t) => {
                        let ok = transport.transfer(&t);
                        let ghost s1 = store@;
                        let ghost k0 = pass@.pos as int;
                        pass.record(store, ok);
                        proof {
                            assert forall|k: int| pass@.pos <= k < pending.len() implies has_unsynced(store@, #[trigger] pending[k].id) by {
                                assert(pending[k0].id < pending[k].id);
                                if ok {
                                    lemma_mark_in_keeps_others(s1, t.id, pending[k].id);
                                }
                            }
                            assert forall|i: int| 0 <= i < s0.len() implies #[trigger] store@[i] == s0[i] || store@[i] == synced_copy(s0[i]) by {
                                if ok {
                                    assert(store@[i] == mark_in(s1, t.id)[i]);
                                }
                            }
                        }
                    },
                }
            }
            pass.finish(link, now)
        },
    }
}

} // verus!
