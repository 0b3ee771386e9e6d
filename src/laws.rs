use vstd::prelude::*;
use crate::transcript::{
    has_id, lemma_mark_in_count, mark_in, newest_first, records_ordered, synced_copy,
    unsynced_of, SyncState, Transcript,
};

verus! {

/// The records after the store has marked each id of `ids` delivered, in that order.
pub open spec fn mark_all(s: Seq<Transcript>, ids: Seq<u64>) -> Seq<Transcript>
    decreases ids.len(),
{
    if ids.len() == 0 {
        s
    } else {
        mark_in(mark_all(s, ids.drop_last()), ids.last())
    }
}

/// The records with every one whose id occurs in `ids` marked delivered.
pub open spec fn mark_set(s: Seq<Transcript>, ids: Seq<u64>) -> Seq<Transcript> {
    s.map_values(|t: Transcript| if ids.contains(t.id) { synced_copy(t) } else { t })
}

/// How many records of `s` are undelivered and carry an id that occurs in `ids`;
/// each record counts once, however often its id occurs.
pub open spec fn claimed_by(s: Seq<Transcript>, ids: Seq<u64>) -> nat
    decreases s.len(),
{
    if s.len() == 0 {
        0
    } else {
        claimed_by(s.drop_last(), ids) + if s.last().sync_state == SyncState::Unsynced
            && ids.contains(s.last().id) {
            1nat
        } else {
            0nat
        }
    }
}

/// A listing holds every record once, newest first: creation times never increase
/// along it and ids strictly decrease, so no record appears twice and none is left out.
pub proof fn listing_is_newest_first(s: Seq<Transcript>)
    requires
        records_ordered(s),
    ensures
        newest_first(s).len() == s.len(),
        forall|i: int, j: int|
            0 <= i < j < s.len() ==> (#[trigger] newest_first(s)[i]).created_at
                >= (#[trigger] newest_first(s)[j]).created_at
                && newest_first(s)[i].id > newest_first(s)[j].id,
        forall|t: Transcript| s.contains(t) <==> newest_first(s).contains(t),
{
    let l = newest_first(s);
    assert forall|t: Transcript| s.contains(t) <==> l.contains(t) by {
        if s.contains(t) {
            let i = choose|i: int| 0 <= i < s.len() && s[i] == t;
            assert(l[s.len() - 1 - i] == t);
        }
        if l.contains(t) {
            let i = choose|i: int| 0 <= i < l.len() && l[i] == t;
            assert(s[s.len() - 1 - i] == t);
        }
    }
}

/// Marking the same id delivered twice leaves what marking it once left, and the
/// second call succeeds exactly when the first did.
pub proof fn mark_synced_is_idempotent(s: Seq<Transcript>, id: u64)
    ensures
        mark_in(mark_in(s, id), id) == mark_in(s, id),
        has_id(mark_in(s, id), id) == has_id(s, id),
{
    assert(mark_in(mark_in(s, id), id) =~= mark_in(s, id));
    if has_id(s, id) {
        let i = choose|i: int| 0 <= i < s.len() && s[i].id == id;
        assert(mark_in(s, id)[i].id == id);
    }
    if has_id(mark_in(s, id), id) {
        let i = choose|i: int| 0 <= i < s.len() && mark_in(s, id)[i].id == id;
        assert(s[i].id == id);
    }
}

/// Marking never takes a delivered record back to undelivered, and changes nothing
/// of a record but its state.
pub proof fn sync_state_never_regresses(s: Seq<Transcript>, id: u64)
    ensures
        mark_in(s, id).len() == s.len(),
        forall|i: int|
            0 <= i < s.len() ==> {
                let t = #[trigger] mark_in(s, id)[i];
                &&& (s[i].sync_state == SyncState::Synced ==> t.sync_state == SyncState::Synced)
                &&& t.id == s[i].id && t.content == s[i].content && t.created_at == s[i].created_at
            },
{
}

/// A delivery marked by a pass never raises the number of undelivered records.
pub proof fn sync_never_raises_unsynced(s: Seq<Transcript>, id: u64)
    requires
        records_ordered(s),
    ensures
        unsynced_of(mark_in(s, id)).len() <= unsynced_of(s).len(),
{
    lemma_mark_in_count(s, id);
}

proof fn lemma_mark_all_is_mark_set(s: Seq<Transcript>, ids: Seq<u64>)
    ensures
        mark_all(s, ids) == mark_set(s, ids),
    decreases ids.len(),
{
    if ids.len() == 0 {
        assert(mark_set(s, ids) =~= s);
    } else {
        let rest = ids.drop_last();
        let x = ids.last();
        lemma_mark_all_is_mark_set(s, rest);
        assert forall|v: u64| ids.contains(v) <==> (rest.contains(v) || v == x) by {
            if ids.contains(v) {
                let k = choose|k: int| 0 <= k < ids.len() && ids[k] == v;
                if k < rest.len() {
                    assert(rest[k] == v);
                }
            }
            if rest.contains(v) {
                let k = choose|k: int| 0 <= k < rest.len() && rest[k] == v;
                assert(ids[k] == v);
            }
            if v == x {
                assert(ids[ids.len() - 1] == v);
            }
        }
        assert(mark_in(mark_set(s, rest), x) =~= mark_set(s, ids));
    }
}

proof fn lemma_mark_set_count(s: Seq<Transcript>, ids: Seq<u64>)
    ensures
        unsynced_of(s).len() == unsynced_of(mark_set(s, ids)).len() + claimed_by(s, ids),
    decreases s.len(),
{
    if s.len() > 0 {
        assert(mark_set(s, ids).drop_last() =~= mark_set(s.drop_last(), ids));
        lemma_mark_set_count(s.drop_last(), ids);
    }
}

/// However the deliveries of several passes interleave (`ids`, repeats allowed), the
/// number of records they take from undelivered to delivered is the number of
/// undelivered records whose id was delivered: each record is credited once at most.
pub proof fn deliveries_credit_each_record_once(s: Seq<Transcript>, ids: Seq<u64>)
    ensures
        unsynced_of(s).len() == unsynced_of(mark_all(s, ids)).len() + claimed_by(s, ids),
        claimed_by(s, ids) <= unsynced_of(s).len(),
{
    lemma_mark_all_is_mark_set(s, ids);
    lemma_mark_set_count(s, ids);
}

} // verus!
