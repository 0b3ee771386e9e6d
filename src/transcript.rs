use vstd::prelude::*;

verus! {

/// Whether a transcript has been delivered to the device.
#[derive(Clone, Copy, Debug, PartialEq, Eq, Structural)]
pub enum SyncState {
    Unsynced,
    Synced,
}

/// One recorded item, as held by the store.
#[derive(Debug)]
pub struct Transcript {
    pub id: u64,
    pub content: String,
    pub created_at: u64,
    pub sync_state: SyncState,
}

/// Failures of store operations.
#[derive(Clone, Copy, Debug, PartialEq, Eq, Structural)]
pub enum StoreError {
    /// The store cannot take another record.
    StorageError,
    /// No transcript carries the given id.
    NotFound,
}

impl Transcript {
    /// An independent copy of this record.
    pub fn duplicate(&self) -> (r: Transcript)
        ensures
            r == *self,
    {
        Transcript {
            id: self.id,
            content: self.content.clone(),
            created_at: self.created_at,
            sync_state: self.sync_state,
        }
    }
}

/// The same record, marked as delivered.
pub open spec fn synced_copy(t: Transcript) -> Transcript {
    Transcript { id: t.id, content: t.content, created_at: t.created_at, sync_state: SyncState::Synced }
}

/// Records in insertion order: ids strictly increasing, creation times never decreasing.
pub open spec fn records_ordered(s: Seq<Transcript>) -> bool {
    forall|i: int, j: int|
        0 <= i < j < s.len() ==> s[i].id < s[j].id && s[i].created_at <= s[j].created_at
}

/// The creation time the store gives a record added at clock reading `now`:
/// the reading itself, raised to the newest existing creation time if the clock went back.
pub open spec fn stamp_for(s: Seq<Transcript>, now: u64) -> u64 {
    if s.len() == 0 || s.last().created_at <= now {
        now
    } else {
        s.last().created_at
    }
}

/// The records not yet delivered, oldest first.
pub open spec fn unsynced_of(s: Seq<Transcript>) -> Seq<Transcript>
    decreases s.len(),
{
    if s.len() == 0 {
        Seq::empty()
    } else if s.last().sync_state == SyncState::Unsynced {
        unsynced_of(s.drop_last()).push(s.last())
    } else {
        unsynced_of(s.drop_last())
    }
}

/// Some record carries `id`.
pub open spec fn has_id(s: Seq<Transcript>, id: u64) -> bool {
    exists|i: int| 0 <= i < s.len() && s[i].id == id
}

/// Some record carrying `id` is not yet delivered.
pub open spec fn has_unsynced(s: Seq<Transcript>, id: u64) -> bool {
    exists|i: int| 0 <= i < s.len() && s[i].id == id && s[i].sync_state == SyncState::Unsynced
}

/// The records with the one carrying `id` marked as delivered.
pub open spec fn mark_in(s: Seq<Transcript>, id: u64) -> Seq<Transcript> {
    s.map_values(|t: Transcript| if t.id == id { synced_copy(t) } else { t })
}

/// The records newest first.
pub open spec fn newest_first(s: Seq<Transcript>) -> Seq<Transcript> {
    Seq::new(s.len(), |i: int| s[s.len() - 1 - i])
}

/// The local store of transcripts, the one source of truth for their sync state.
pub struct TranscriptStore {
    records: Vec<Transcript>,
    next_id: u64,
}

impl View for TranscriptStore {
    type V = Seq<Transcript>;

    closed spec fn view(&self) -> Seq<Transcript> {
        self.records@
    }
}

impl TranscriptStore {
    /// The id the next added record will carry.
    pub closed spec fn fresh_id(&self) -> u64 {
        self.next_id
    }

    pub open spec fn wf(&self) -> bool {
        &&& records_ordered(self@)
        &&& forall|i: int| 0 <= i < self@.len() ==> self@[i].id < self.fresh_id()
    }

    /// The id the next added record will carry, as kept across a restart.
    pub fn next_id(&self) -> (r: u64)
        ensures
            r == self.fresh_id(),
    {
        self.next_id
    }

    /// An empty store.
    pub fn new() -> (r: TranscriptStore)
        ensures
            r.wf(),
            r@ == Seq::<Transcript>::empty(),
            r.fresh_id() == 0,
    {
        TranscriptStore { records: Vec::new(), next_id: 0 }
    }

    /// Rebuilds a store from records kept across a restart, with `next_id` the id the
    /// next added record is to carry. Fails with `StorageError` when the records are
    /// not in insertion order or an id is not below `next_id`, as after corruption.
    pub fn restore(records: Vec<Transcript>, next_id: u64) -> (r: Result<TranscriptStore, StoreError>)
        ensures
            r is Ok <==> (records_ordered(records@) && forall|i: int|
                0 <= i < records@.len() ==> #[trigger] records@[i].id < next_id),
            match r {
                Ok(st) => st.wf() && st@ == records@ && st.fresh_id() == next_id,
                Err(e) => e == StoreError::StorageError,
            },
    {
        let n = records.len();
        let mut i: usize = 0;
        while i < n
            invariant
                n == records@.len(),
                i <= n,
                forall|a: int| 0 <= a < i ==> #[trigger] records@[a].id < next_id,
                forall|a: int, b: int|
                    0 <= a < b < i ==> records@[a].id < records@[b].id && records@[a].created_at
                        <= records@[b].created_at,
            decreases n - i,
        {
            if records[i].id >= next_id {
                return Err(StoreError::StorageError);
            }
            if i > 0 && (records[i - 1].id >= records[i].id || records[i - 1].created_at > records[i].created_at) {
                assert(!records_ordered(records@)) by {
                    assert(0 <= i - 1 < i < records@.len());
                }
                return Err(StoreError::StorageError);
            }
            assert forall|a: int, b: int|
                0 <= a < b < i + 1 implies records@[a].id < records@[b].id && records@[a].created_at
                    <= records@[b].created_at by {
                if b == i && a < i - 1 {
                    assert(records@[a].id < records@[i - 1].id);
                }
            }
            i = i + 1;
        }
        Ok(TranscriptStore { records, next_id })
    }

    /// Appends a new undelivered record with a fresh id, stamped at clock reading `now`.
    /// Fails with `StorageError`, changing nothing, once the ids are used up.
    pub fn add(&mut self, content: String, now: u64) -> (r: Result<Transcript, StoreError>)
        requires
            old(self).wf(),
        ensures
            final(self).wf(),
            r is Ok <==> old(self).fresh_id() < u64::MAX,
            match r {
                Ok(t) => {
                    &&& t.id == old(self).fresh_id()
                    &&& t.content == content
                    &&& t.created_at == stamp_for(old(self)@, now)
                    &&& t.sync_state == SyncState::Unsynced
                    &&& final(self)@ == old(self)@.push(t)
                    &&& final(self).fresh_id() == old(self).fresh_id() + 1
                },
                Err(e) => {
                    &&& e == StoreError::StorageError
                    &&& final(self)@ == old(self)@
                    &&& final(self).fresh_id() == old(self).fresh_id()
                },
            },
    {
        if self.next_id == u64::MAX {
            return Err(StoreError::StorageError);
        }
        let n = self.records.len();
        let mut stamp = now;
        if n > 0 && self.records[n - 1].created_at > now {
            stamp = self.records[n - 1].created_at;
        }
        let t = Transcript { id: self.next_id, content, created_at: stamp, sync_state: SyncState::Unsynced };
        let r = t.duplicate();
        self.records.push(t);
        self.next_id = self.next_id + 1;
        Ok(r)
    }

    /// A snapshot of every record, newest first.
    pub fn list(&self) -> (r: Vec<Transcript>)
        ensures
            r@ == newest_first(self@),
    {
        let n = self.records.len();
        let mut r: Vec<Transcript> = Vec::new();
        let mut k: usize = n;
        while k > 0
            invariant
                n == self@.len(),
                k <= n,
                r@.len() == n - k,
                forall|i: int| 0 <= i < n - k ==> r@[i] == self@[n - 1 - i],
            decreases k,
        {
            k = k - 1;
            r.push(self.records[k].duplicate());
        }
        assert(r@ =~= newest_first(self@));
        r
    }

    /// Whether a record carrying `id` is still undelivered.
    pub fn is_unsynced(&self, id: u64) -> (r: bool)
        ensures
            r == has_unsynced(self@, id),
    {
        let mut i: usize = 0;
        while i < self.records.len()
            invariant
                i <= self@.len(),
                forall|j: int|
                    0 <= j < i ==> !(self@[j].id == id && self@[j].sync_state == SyncState::Unsynced),
            decreases self@.len() - i,
        {
            if self.records[i].id == id && self.records[i].sync_state == SyncState::Unsynced {
                return true;
            }
            i = i + 1;
        }
        false
    }

    /// Marks the record carrying `id` as delivered; a record already delivered stays as it is.
    /// Fails with `NotFound`, changing nothing, when no record carries `id`.
    pub fn mark_synced(&mut self, id: u64) -> (r: Result<(), StoreError>)
        requires
            old(self).wf(),
        ensures
            final(self).wf(),
            final(self).fresh_id() == old(self).fresh_id(),
            final(self)@ == mark_in(old(self)@, id),
            r is Ok <==> has_id(old(self)@, id),
            r is Err ==> r == Err::<(), StoreError>(StoreError::NotFound),
    {
        let ghost s0 = self@;
        let n = self.records.len();
        let mut found = false;
        let mut i: usize = 0;
        while i < n
            invariant
                n == s0.len(),
                i <= n,
                self.next_id == old(self).next_id,
                self@.len() == n,
                forall|j: int| 0 <= j < i ==> self@[j] == mark_in(s0, id)[j],
                forall|j: int| i <= j < n ==> self@[j] == s0[j],
                found <==> exists|j: int| 0 <= j < i && s0[j].id == id,
            decreases n - i,
        {
            if self.records[i].id == id {
                self.records[i].sync_state = SyncState::Synced;
                found = true;
            }
            assert(found <==> exists|j: int| 0 <= j < i + 1 && s0[j].id == id) by {
                if s0[i as int].id == id {
                    assert(0 <= i < i + 1 && s0[i as int].id == id);
                }
            }
            i = i + 1;
        }
        assert(self@ =~= mark_in(s0, id));
        if found {
            Ok(())
        } else {
            Err(StoreError::NotFound)
        }
    }

    /// The number of records not yet delivered.
    pub fn count_unsynced(&self) -> (r: usize)
        ensures
            r == unsynced_of(self@).len(),
    {
        let v = self.unsynced();
        v.len()
    }

    /// A snapshot of the records not yet delivered, oldest first.
    pub fn unsynced(&self) -> (r: Vec<Transcript>)
        ensures
            r@ == unsynced_of(self@),
    {
        let n = self.records.len();
        let mut r: Vec<Transcript> = Vec::new();
        let mut i: usize = 0;
        while i < n
            invariant
                n == self@.len(),
                i <= n,
                r@ == unsynced_of(self@.subrange(0, i as int)),
            decreases n - i,
        {
            assert(self@.subrange(0, i + 1).drop_last() =~= self@.subrange(0, i as int));
            if self.records[i].sync_state == SyncState::Unsynced {
                r.push(self.records[i].duplicate());
            }
            i = i + 1;
        }
        assert(self@.subrange(0, n as int) =~= self@);
        r
    }
}


/// Marking a record delivered lowers the undelivered count by one exactly when
/// an undelivered record carries that id, and leaves it as it was otherwise.
pub proof fn lemma_mark_in_count(s: Seq<Transcript>, id: u64)
    requires
        records_ordered(s),
    ensures
        has_unsynced(s, id) ==> unsynced_of(mark_in(s, id)).len() + 1 == unsynced_of(s).len(),
        !has_unsynced(s, id) ==> unsynced_of(mark_in(s, id)).len() == unsynced_of(s).len(),
    decreases s.len(),
{
    if s.len() > 0 {
        let p = s.drop_last();
        let x = s.last();
        assert(mark_in(s, id).drop_last() =~= mark_in(p, id));
        assert(records_ordered(p));
        lemma_mark_in_count(p, id);
        if x.id == id {
            assert(!has_unsynced(p, id)) by {
                assert forall|i: int| 0 <= i < p.len() implies p[i].id != id by {
                    assert(s[i].id < s[s.len() - 1].id);
                }
            }
            if x.sync_state == SyncState::Unsynced {
                assert(has_unsynced(s, id));
            }
        } else {
            assert(has_unsynced(s, id) == has_unsynced(p, id)) by {
                if has_unsynced(s, id) {
                    let i = choose|i: int| 0 <= i < s.len() && s[i].id == id && s[i].sync_state == SyncState::Unsynced;
                    assert(p[i] == s[i]);
                }
                if has_unsynced(p, id) {
                    let i = choose|i: int| 0 <= i < p.len() && p[i].id == id && p[i].sync_state == SyncState::Unsynced;
                    assert(s[i] == p[i]);
                }
            }
        }
    }
}

/// The undelivered records are records of the store, undelivered, in the store's order.
pub proof fn lemma_unsynced_of_members(s: Seq<Transcript>)
    requires
        records_ordered(s),
    ensures
        records_ordered(unsynced_of(s)),
        forall|k: int| 0 <= k < unsynced_of(s).len() ==> (#[trigger] unsynced_of(s)[k]).sync_state == SyncState::Unsynced
            && s.contains(unsynced_of(s)[k]),
    decreases s.len(),
{
    if s.len() > 0 {
        let p = s.drop_last();
        let x = s.last();
        assert(records_ordered(p));
        lemma_unsynced_of_members(p);
        let u = unsynced_of(p);
        assert forall|k: int| 0 <= k < u.len() implies s.contains(#[trigger] u[k]) by {
            let i = choose|i: int| 0 <= i < p.len() && p[i] == u[k];
            assert(s[i] == p[i]);
        }
        if x.sync_state == SyncState::Unsynced {
            let v = u.push(x);
            assert(s[s.len() - 1] == x);
            assert forall|i: int, j: int| 0 <= i < j < v.len() implies v[i].id < v[j].id && v[i].created_at <= v[j].created_at by {
                if j == v.len() - 1 {
                    let a = choose|a: int| 0 <= a < p.len() && p[a] == u[i];
                    assert(s[a] == p[a]);
                    assert(s[a].id < s[s.len() - 1].id);
                }
            }
            assert forall|k: int| 0 <= k < v.len() implies s.contains(#[trigger] v[k]) by {
                if k < u.len() {
                    assert(v[k] == u[k]);
                }
            }
        }
    }
}

/// Marking one id delivered keeps every other id's undelivered record undelivered.
pub proof fn lemma_mark_in_keeps_others(s: Seq<Transcript>, id: u64, other: u64)
    requires
        has_unsynced(s, other),
        other != id,
    ensures
        has_unsynced(mark_in(s, id), other),
{
    let i = choose|i: int| 0 <= i < s.len() && s[i].id == other && s[i].sync_state == SyncState::Unsynced;
    assert(mark_in(s, id)[i] == s[i]);
}

} // verus!
