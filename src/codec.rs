use vstd::prelude::*;
use vstd::string::StringSliceAdditionalSpecFns;
use vstd::utf8::{decode_utf8, encode_utf8, encode_utf8_decode_utf8, encode_utf8_valid_utf8, valid_utf8};
use crate::transcript::{records_ordered, StoreError, SyncState, Transcript, TranscriptStore};

verus! {

/// What a stored record amounts to, with its text as characters.
pub ghost struct RecordImage {
    pub id: u64,
    pub created_at: u64,
    pub sync_state: SyncState,
    pub content: Seq<char>,
}

pub open spec fn image(t: Transcript) -> RecordImage {
    RecordImage { id: t.id, created_at: t.created_at, sync_state: t.sync_state, content: t.content@ }
}

pub open spec fn images(s: Seq<Transcript>) -> Seq<RecordImage> {
    s.map_values(|t: Transcript| image(t))
}

/// Eight bytes, most significant first.
#[verifier::opaque]
pub open spec fn u64_bytes(v: u64) -> Seq<u8> {
    seq![
        (v >> 56u64) as u8,
        (v >> 48u64) as u8,
        (v >> 40u64) as u8,
        (v >> 32u64) as u8,
        (v >> 24u64) as u8,
        (v >> 16u64) as u8,
        (v >> 8u64) as u8,
        v as u8,
    ]
}

/// The number that eight bytes, most significant first, stand for.
#[verifier::opaque]
pub open spec fn u64_of(b: Seq<u8>) -> u64 {
    (b[0] as u64) << 56u64 | (b[1] as u64) << 48u64 | (b[2] as u64) << 40u64 | (b[3] as u64) << 32u64
        | (b[4] as u64) << 24u64 | (b[5] as u64) << 16u64 | (b[6] as u64) << 8u64 | (b[7] as u64)
}

pub open spec fn state_byte(s: SyncState) -> u8 {
    match s {
        SyncState::Unsynced => 0,
        SyncState::Synced => 1,
    }
}

/// One record: id, creation time, state byte, text length in bytes, text as UTF-8.
pub open spec fn encode_record(r: RecordImage) -> Seq<u8> {
    u64_bytes(r.id) + u64_bytes(r.created_at) + seq![state_byte(r.sync_state)]
        + u64_bytes(encode_utf8(r.content).len() as u64) + encode_utf8(r.content)
}

pub open spec fn encode_records(s: Seq<RecordImage>) -> Seq<u8>
    decreases s.len(),
{
    if s.len() == 0 {
        Seq::empty()
    } else {
        encode_records(s.drop_last()) + encode_record(s.last())
    }
}

/// A store on disk: the next id, then each record in insertion order.
pub open spec fn encode_store(next_id: u64, s: Seq<RecordImage>) -> Seq<u8> {
    u64_bytes(next_id) + encode_records(s)
}

/// Reads records back from the front; `None` when the bytes are not a sequence of records.
pub open spec fn parse_records(b: Seq<u8>) -> Option<Seq<RecordImage>>
    decreases b.len(),
{
    if b.len() == 0 {
        Some(Seq::empty())
    } else if b.len() < 25 {
        None
    } else {
        let n = u64_of(b.subrange(17, 25)) as int;
        let state = b[16];
        if n > b.len() - 25 || state > 1 || !valid_utf8(b.subrange(25, 25 + n)) {
            None
        } else {
            match parse_records(b.subrange(25 + n, b.len() as int)) {
                Some(rest) => Some(seq![RecordImage {
                    id: u64_of(b.subrange(0, 8)),
                    created_at: u64_of(b.subrange(8, 16)),
                    sync_state: if state == 0 { SyncState::Unsynced } else { SyncState::Synced },
                    content: decode_utf8(b.subrange(25, 25 + n)),
                }] + rest),
                None => None,
            }
        }
    }
}

/// Reads a store back: the next id and the records.
pub open spec fn parse_store(b: Seq<u8>) -> Option<(u64, Seq<RecordImage>)> {
    if b.len() < 8 {
        None
    } else {
        match parse_records(b.subrange(8, b.len() as int)) {
            Some(r) => Some((u64_of(b.subrange(0, 8)), r)),
            None => None,
        }
    }
}

proof fn lemma_u64_round_trip(v: u64)
    ensures
        u64_of(u64_bytes(v)) == v,
        u64_bytes(v).len() == 8,
{
    reveal(u64_bytes);
    reveal(u64_of);
    assert(((v >> 56u64) as u8 as u64) << 56u64 | ((v >> 48u64) as u8 as u64) << 48u64
        | ((v >> 40u64) as u8 as u64) << 40u64 | ((v >> 32u64) as u8 as u64) << 32u64
        | ((v >> 24u64) as u8 as u64) << 24u64 | ((v >> 16u64) as u8 as u64) << 16u64
        | ((v >> 8u64) as u8 as u64) << 8u64 | (v as u8 as u64) == v) by (bit_vector);
}

fn put_u64(out: &mut Vec<u8>, v: u64)
    ensures
        final(out)@ == old(out)@ + u64_bytes(v),
{
    reveal(u64_bytes);
    out.push((v >> 56u64) as u8);
    out.push((v >> 48u64) as u8);
    out.push((v >> 40u64) as u8);
    out.push((v >> 32u64) as u8);
    out.push((v >> 24u64) as u8);
    out.push((v >> 16u64) as u8);
    out.push((v >> 8u64) as u8);
    out.push(v as u8);
    assert(final(out)@ =~= old(out)@ + u64_bytes(v));
}

fn get_u64(b: &[u8], p: usize) -> (r: u64)
    requires
        p + 8 <= b@.len(),
    ensures
        r == u64_of(b@.subrange(p as int, p + 8)),
{
    reveal(u64_of);
    let ghost s = b@.subrange(p as int, p + 8);
    assert(s[0] == b@[p as int] && s[7] == b@[p + 7]);
    (b[p] as u64) << 56u64 | (b[p + 1] as u64) << 48u64 | (b[p + 2] as u64) << 40u64
        | (b[p + 3] as u64) << 32u64 | (b[p + 4] as u64) << 24u64 | (b[p + 5] as u64) << 16u64
        | (b[p + 6] as u64) << 8u64 | (b[p + 7] as u64)
}

/// Relies on std's `String::from_utf8`: it fails exactly when the bytes are not
/// UTF-8, and otherwise holds the text those bytes encode.
#[verifier::external_body]
fn string_from_utf8(bytes: Vec<u8>) -> (r: Option<String>)
    ensures
        r is Some <==> valid_utf8(bytes@),
        r matches Some(s) ==> s@ == decode_utf8(bytes@),
{
    String::from_utf8(bytes).ok()
}

/// Joins decoded records to what the rest of the bytes parses to.
pub open spec fn prepend(a: Seq<RecordImage>, rest: Option<Seq<RecordImage>>) -> Option<Seq<RecordImage>> {
    match rest {
        Some(r) => Some(a + r),
        None => None,
    }
}

impl TranscriptStore {
    /// The bytes that keep this store across a restart.
    pub fn encode(&self) -> (r: Vec<u8>)
        ensures
            r@ == encode_store(self.fresh_id(), images(self@)),
    {
        let records = self.list();
        let n = records.len();
        let mut out: Vec<u8> = Vec::new();
        put_u64(&mut out, self.next_id());
        let mut k: usize = n;
        while k > 0
            invariant
                n == self@.len(),
                records@.len() == n,
                k <= n,
                forall|i: int| 0 <= i < n ==> records@[i] == self@[n - 1 - i],
                out@ == u64_bytes(self.fresh_id()) + encode_records(images(self@.subrange(0, n - k))),
            decreases k,
        {
            k = k - 1;
            let t = &records[k];
            let bytes = t.content.as_str().as_bytes();
            put_u64(&mut out, t.id);
            put_u64(&mut out, t.created_at);
            out.push(if t.sync_state == SyncState::Unsynced { 0u8 } else { 1u8 });
            put_u64(&mut out, bytes.len() as u64);
            out.extend_from_slice(bytes);
            proof {
                let done = self@.subrange(0, n - k);
                assert(done.drop_last() =~= self@.subrange(0, n - k - 1));
                assert(images(done).drop_last() =~= images(done.drop_last()));
                assert(done.last() == *t);
                assert(bytes@ == encode_utf8(t.content@));
                assert(out@ =~= u64_bytes(self.fresh_id()) + encode_records(images(done)));
            }
        }
        assert(self@.subrange(0, n as int) =~= self@);
        out
    }

    /// Rebuilds a store from the bytes `encode` wrote. Fails with `StorageError`
    /// when the bytes are not a store, or hold records that `restore` refuses.
    pub fn decode(bytes: &[u8]) -> (r: Result<TranscriptStore, StoreError>)
        ensures
            match parse_store(bytes@) {
                None => r == Err::<TranscriptStore, StoreError>(StoreError::StorageError),
                Some((next_id, recs)) => {
                    &&& r is Ok <==> images_ordered(recs, next_id)
                    &&& match r {
                        Ok(st) => st.wf() && images(st@) == recs && st.fresh_id() == next_id,
                        Err(e) => e == StoreError::StorageError,
                    }
                },
            },
    {
        let n = bytes.len();
        if n < 8 {
            return Err(StoreError::StorageError);
        }
        let next_id = get_u64(bytes, 0);
        let ghost all = bytes@.subrange(8, n as int);
        let mut records: Vec<Transcript> = Vec::new();
        let mut p: usize = 8;
        while p < n
            invariant
                n == bytes@.len(),
                8 <= p <= n,
                all == bytes@.subrange(8, n as int),
                parse_records(all) == prepend(images(records@), parse_records(bytes@.subrange(p as int, n as int))),
            decreases n - p,
        {
            let ghost b = bytes@.subrange(p as int, n as int);
            if n - p < 25 {
                assert(parse_records(b) is None);
                return Err(StoreError::StorageError);
            }
            let id = get_u64(bytes, p);
            let created_at = get_u64(bytes, p + 8);
            let state = bytes[p + 16];
            let len = get_u64(bytes, p + 17);
            assert(b.subrange(0, 8) =~= bytes@.subrange(p as int, p + 8));
            assert(b.subrange(8, 16) =~= bytes@.subrange(p + 8, p + 16));
            assert(b.subrange(17, 25) =~= bytes@.subrange(p + 17, p + 25));
            if state > 1 || len > (n - p - 25) as u64 {
                return Err(StoreError::StorageError);
            }
            let start = p + 25;
            let end = start + len as usize;
            let mut text: Vec<u8> = Vec::new();
            let mut i: usize = start;
            while i < end
                invariant
                    n == bytes@.len(),
                    start <= i <= end <= n,
                    text@ == bytes@.subrange(start as int, i as int),
                decreases end - i,
            {
                text.push(bytes[i]);
                i = i + 1;
                assert(text@ =~= bytes@.subrange(start as int, i as int));
            }
            assert(b.subrange(25, 25 + len as int) =~= text@);
            assert(b.subrange(25 + len as int, b.len() as int) =~= bytes@.subrange(end as int, n as int));
            let ghost text_bytes = text@;
            match string_from_utf8(text) {
                None => {
                    return Err(StoreError::StorageError);
                },
                Some(content) => {
                    let sync_state = if state == 0 { SyncState::Unsynced } else { SyncState::Synced };
                    let t = Transcript { id, content, created_at, sync_state };
                    let ghost before = records@;
                    records.push(t);
                    proof {
                        assert(images(records@) =~= images(before) + seq![image(t)]);
                        assert(decode_utf8(text_bytes) == t.content@);
                        match parse_records(bytes@.subrange(end as int, n as int)) {
                            Some(rest) => {
                                assert(images(before) + (seq![image(t)] + rest) =~= images(records@) + rest);
                            },
                            None => {},
                        }
                    }
                    p = end;
                },
            }
        }
        assert(bytes@.subrange(p as int, n as int) =~= Seq::<u8>::empty());
        assert(images(records@) + Seq::<RecordImage>::empty() =~= images(records@));
        let ghost recs = records@;
        let r = TranscriptStore::restore(records, next_id);
        proof {
            let im = images(recs);
            assert forall|i: int| 0 <= i < recs.len() implies #[trigger] im[i].id == recs[i].id
                && im[i].created_at == recs[i].created_at by {}
            if records_ordered(recs) && forall|i: int| 0 <= i < recs.len() ==> #[trigger] recs[i].id < next_id {
                assert forall|i: int, j: int| 0 <= i < j < im.len() implies im[i].id < im[j].id
                    && im[i].created_at <= im[j].created_at by {
                    assert(recs[i].id < recs[j].id);
                }
                assert forall|i: int| 0 <= i < im.len() implies im[i].id < next_id by {
                    assert(recs[i].id < next_id);
                }
            }
            if images_ordered(im, next_id) {
                assert forall|i: int, j: int| 0 <= i < j < recs.len() implies recs[i].id < recs[j].id
                    && recs[i].created_at <= recs[j].created_at by {
                    assert(im[i].id < im[j].id);
                }
                assert forall|i: int| 0 <= i < recs.len() implies recs[i].id < next_id by {
                    assert(im[i].id < next_id);
                }
            }
            assert(images_ordered(images(recs), next_id) <==> (records_ordered(recs) && forall|i: int|
                0 <= i < recs.len() ==> #[trigger] recs[i].id < next_id));
        }
        r
    }
}

proof fn lemma_encode_records_front(s: Seq<RecordImage>)
    requires
        s.len() > 0,
    ensures
        encode_records(s) == encode_record(s[0]) + encode_records(s.drop_first()),
    decreases s.len(),
{
    let p = s.drop_last();
    assert(encode_records(s) == encode_records(p) + encode_record(s.last()));
    if p.len() == 0 {
        assert(s.drop_first() =~= Seq::<RecordImage>::empty());
        assert(encode_records(p) == Seq::<u8>::empty());
        assert(encode_records(s.drop_first()) == Seq::<u8>::empty());
        assert(s.last() == s[0]);
        assert(encode_records(s) =~= encode_record(s[0]) + encode_records(s.drop_first()));
    } else {
        lemma_encode_records_front(p);
        let q = s.drop_first();
        assert(q.drop_last() =~= p.drop_first());
        assert(q.last() == s.last());
        assert(encode_records(q) == encode_records(q.drop_last()) + encode_record(q.last()));
        assert(p[0] == s[0]);
        assert(encode_records(s) =~= encode_record(s[0]) + encode_records(q));
    }
}

proof fn lemma_record_fields(t: RecordImage)
    requires
        encode_utf8(t.content).len() <= u64::MAX,
    ensures
        ({
            let e = encode_record(t);
            let n = encode_utf8(t.content).len() as int;
            &&& e.len() == 25 + n
            &&& u64_of(e.subrange(0, 8)) == t.id
            &&& u64_of(e.subrange(8, 16)) == t.created_at
            &&& e[16] == state_byte(t.sync_state)
            &&& u64_of(e.subrange(17, 25)) == n
            &&& e.subrange(25, 25 + n) == encode_utf8(t.content)
        }),
{
    let text = encode_utf8(t.content);
    let n = text.len() as int;
    lemma_u64_round_trip(t.id);
    lemma_u64_round_trip(t.created_at);
    lemma_u64_round_trip(n as u64);
    let e = encode_record(t);
    assert(e.subrange(0, 8) =~= u64_bytes(t.id));
    assert(e.subrange(8, 16) =~= u64_bytes(t.created_at));
    assert(e.subrange(17, 25) =~= u64_bytes(n as u64));
    assert(e.subrange(25, 25 + n) =~= text);
}

proof fn lemma_parse_encode_records(s: Seq<RecordImage>)
    requires
        forall|i: int| 0 <= i < s.len() ==> #[trigger] encode_utf8(s[i].content).len() <= u64::MAX,
    ensures
        parse_records(encode_records(s)) == Some(s),
    decreases s.len(),
{
    if s.len() > 0 {
        let t = s[0];
        let rest = s.drop_first();
        lemma_encode_records_front(s);
        assert forall|i: int| 0 <= i < rest.len() implies #[trigger] encode_utf8(rest[i].content).len() <= u64::MAX by {
            assert(rest[i] == s[i + 1]);
        }
        lemma_parse_encode_records(rest);
        assert(encode_utf8(s[0].content).len() <= u64::MAX);
        lemma_record_fields(t);
        encode_utf8_valid_utf8(t.content);
        encode_utf8_decode_utf8(t.content);
        let e = encode_record(t);
        let n = encode_utf8(t.content).len() as int;
        let b = encode_records(s);
        assert(b == e + encode_records(rest));
        assert(b.subrange(0, 8) =~= e.subrange(0, 8));
        assert(b.subrange(8, 16) =~= e.subrange(8, 16));
        assert(b[16] == e[16]);
        assert(b.subrange(17, 25) =~= e.subrange(17, 25));
        assert(b.subrange(25, 25 + n) =~= e.subrange(25, 25 + n));
        assert(b.subrange(25 + n, b.len() as int) =~= encode_records(rest));
        let back = RecordImage {
            id: t.id,
            created_at: t.created_at,
            sync_state: if b[16] == 0 { SyncState::Unsynced } else { SyncState::Synced },
            content: decode_utf8(encode_utf8(t.content)),
        };
        assert(back == t);
        assert(seq![back] + rest =~= s);
    }
}

/// What `encode` writes, `decode` reads back: the same next id and the same records,
/// which `restore` accepts.
pub proof fn decode_reads_back_encode(st: TranscriptStore)
    requires
        st.wf(),
        forall|i: int| 0 <= i < st@.len() ==> #[trigger] encode_utf8(st@[i].content@).len() <= u64::MAX,
    ensures
        parse_store(encode_store(st.fresh_id(), images(st@))) == Some((st.fresh_id(), images(st@))),
        images_ordered(images(st@), st.fresh_id()),
{
    let s = images(st@);
    assert forall|i: int| 0 <= i < s.len() implies #[trigger] encode_utf8(s[i].content).len() <= u64::MAX by {
        assert(s[i] == image(st@[i]));
    }
    lemma_parse_encode_records(s);
    lemma_u64_round_trip(st.fresh_id());
    let b = encode_store(st.fresh_id(), s);
    assert(b.subrange(0, 8) =~= u64_bytes(st.fresh_id()));
    assert(b.subrange(8, b.len() as int) =~= encode_records(s));
    assert forall|i: int, j: int| 0 <= i < j < s.len() implies s[i].id < s[j].id && s[i].created_at
        <= s[j].created_at by {
        assert(s[i] == image(st@[i]) && s[j] == image(st@[j]));
    }
    assert forall|i: int| 0 <= i < s.len() implies s[i].id < st.fresh_id() by {
        assert(s[i] == image(st@[i]));
    }
}

/// Records in insertion order, each id below `next_id`.
pub open spec fn images_ordered(s: Seq<RecordImage>, next_id: u64) -> bool {
    &&& forall|i: int, j: int|
        0 <= i < j < s.len() ==> s[i].id < s[j].id && s[i].created_at <= s[j].created_at
    &&& forall|i: int| 0 <= i < s.len() ==> s[i].id < next_id
}

} // verus!
