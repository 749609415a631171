//! The snapshot: the whole state of a store as one run of bytes.
//!
//! A snapshot is the cursor and the number of records, each as eight bytes,
//! least significant first, and then the records in creation order. A record
//! is its identifier and its creation time, eight bytes each, then its author
//! and its text as UTF-8, each behind its own length in eight bytes.

use vstd::prelude::*;
use vstd::bytes::{
    lemma_auto_spec_u64_to_from_le_bytes, spec_u64_from_le_bytes, spec_u64_to_le_bytes,
    u64_from_le_bytes, u64_to_le_bytes,
};
use vstd::slice::{slice_subrange, slice_to_vec};
use vstd::utf8::{decode_utf8, encode_utf8, valid_utf8};
use crate::record::{Record, RecordView, record_views};
use crate::store::{Store, StoreView};

verus! {

/// Why a run of bytes was not taken for a snapshot.
#[derive(Debug, Clone, Copy, PartialEq, Eq)]
pub enum SnapshotError {
    /// The bytes are not laid out as a snapshot: they end too early, go on
    /// too long, or hold text that is not UTF-8.
    Malformed,
    /// The bytes are laid out as a snapshot, but the identifiers in it do not
    /// rise strictly or do not lie below the cursor.
    Inconsistent,
}

/// A run of bytes behind its length.
pub open spec fn blob_bytes(data: Seq<u8>) -> Seq<u8> {
    spec_u64_to_le_bytes(data.len() as u64) + data
}

/// One record, written out.
pub open spec fn record_bytes(r: RecordView) -> Seq<u8> {
    spec_u64_to_le_bytes(r.id) + spec_u64_to_le_bytes(r.created_at) + blob_bytes(r.author)
        + blob_bytes(encode_utf8(r.content))
}

/// The records one after another, first to last.
pub open spec fn records_bytes(rs: Seq<RecordView>) -> Seq<u8>
    decreases rs.len(),
{
    if rs.len() == 0 {
        Seq::empty()
    } else {
        records_bytes(rs.drop_last()) + record_bytes(rs.last())
    }
}

/// The snapshot of a store.
pub open spec fn snapshot_bytes(s: StoreView) -> Seq<u8> {
    spec_u64_to_le_bytes(s.next_id) + spec_u64_to_le_bytes(s.records.len() as u64)
        + records_bytes(s.records)
}

/// The number that the eight bytes at `at` hold, where there are eight.
pub open spec fn read_u64(b: Seq<u8>, at: int) -> Option<u64> {
    if 0 <= at && at + 8 <= b.len() {
        Some(spec_u64_from_le_bytes(b.subrange(at, at + 8)))
    } else {
        None
    }
}

/// The run of bytes that stands at `at` behind its length, and the position
/// behind it.
pub open spec fn read_blob(b: Seq<u8>, at: int) -> Option<(Seq<u8>, int)> {
    match read_u64(b, at) {
        Some(n) => if at + 8 + n <= b.len() {
            Some((b.subrange(at + 8, at + 8 + n), at + 8 + n))
        } else {
            None
        },
        None => None,
    }
}

/// The record that stands at `at`, and the position behind it.
pub open spec fn read_record(b: Seq<u8>, at: int) -> Option<(RecordView, int)> {
    match (read_u64(b, at), read_u64(b, at + 8), read_blob(b, at + 16)) {
        (Some(id), Some(created_at), Some((author, mid))) => match read_blob(b, mid) {
            Some((text, end)) => if valid_utf8(text) {
                Some((RecordView { id, author, content: decode_utf8(text), created_at }, end))
            } else {
                None
            },
            None => None,
        },
        _ => None,
    }
}

/// The `n` records that stand one after another from `at`, and the position
/// behind the last.
pub open spec fn read_records(b: Seq<u8>, at: int, n: nat) -> Option<(Seq<RecordView>, int)>
    decreases n,
{
    if n == 0 {
        Some((Seq::empty(), at))
    } else {
        match read_records(b, at, (n - 1) as nat) {
            Some((rs, mid)) => match read_record(b, mid) {
                Some((r, end)) => Some((rs.push(r), end)),
                None => None,
            },
            None => None,
        }
    }
}

/// The cursor and the records that the bytes spell out, where they are laid
/// out as a snapshot from the first byte to the last.
pub open spec fn parse(b: Seq<u8>) -> Option<StoreView> {
    match (read_u64(b, 0), read_u64(b, 8)) {
        (Some(next_id), Some(count)) => match read_records(b, 16, count as nat) {
            Some((records, end)) => if end == b.len() {
                Some(StoreView { records, next_id })
            } else {
                None
            },
            None => None,
        },
        _ => None,
    }
}

/// What reading a snapshot back gives: the store that the bytes spell out,
/// or the reason why there is none.
pub open spec fn decoded(b: Seq<u8>) -> Result<StoreView, SnapshotError> {
    match parse(b) {
        None => Err(SnapshotError::Malformed),
        Some(s) => if s.wf() {
            Ok(s)
        } else {
            Err(SnapshotError::Inconsistent)
        },
    }
}

fn put_u64(out: &mut Vec<u8>, x: u64)
    ensures
        final(out)@ == old(out)@ + spec_u64_to_le_bytes(x),
{
    let mut piece = u64_to_le_bytes(x);
    out.append(&mut piece);
}

fn put_blob(out: &mut Vec<u8>, data: &[u8])
    ensures
        final(out)@ == old(out)@ + blob_bytes(data@),
{
    broadcast use vstd::slice::group_slice_axioms;

    let ghost before = out@;
    put_u64(out, data.len() as u64);
    let mut piece = slice_to_vec(data);
    out.append(&mut piece);
    assert(out@ =~= before + blob_bytes(data@));
}

fn put_record(out: &mut Vec<u8>, record: &Record)
    ensures
        final(out)@ == old(out)@ + record_bytes(record@),
{
    let ghost before = out@;
    put_u64(out, record.id);
    put_u64(out, record.created_at);
    put_blob(out, record.author.as_slice());
    put_blob(out, record.content.as_str().as_bytes());
    assert(out@ =~= before + record_bytes(record@));
}

/// Writes the whole state of a store out as a snapshot.
pub fn encode(store: &Store) -> (out: Vec<u8>)
    ensures
        out@ == snapshot_bytes(store@),
{
    let records = store.records();
    let mut out: Vec<u8> = Vec::new();
    put_u64(&mut out, store.next_id());
    put_u64(&mut out, records.len() as u64);
    let ghost head = out@;
    let ghost views = record_views(records@);
    let mut i: usize = 0;
    while i < records.len()
        invariant
            i <= records.len(),
            views == record_views(records@),
            out@ == head + records_bytes(views.take(i as int)),
        decreases records.len() - i,
    {
        let ghost before = out@;
        put_record(&mut out, &records[i]);
        proof {
            let next = views.take(i + 1);
            assert(next.drop_last() =~= views.take(i as int));
            assert(next.last() == records[i as int]@);
            assert(out@ =~= head + records_bytes(next));
        }
        i = i + 1;
    }
    assert(views.take(i as int) =~= views);
    out
}

/// `String::from_utf8` of std: the text that the bytes encode, where they are
/// well-formed UTF-8, and nothing where they are not. The text, encoded
/// again, is the bytes that went in.
#[verifier::external_body]
fn text_from_utf8(bytes: Vec<u8>) -> (r: Option<String>)
    ensures
        r is Some <==> valid_utf8(bytes@),
        r is Some ==> encode_utf8(r->0@) == bytes@,
{
    String::from_utf8(bytes).ok()
}

fn take_u64(bytes: &[u8], at: usize) -> (r: Option<u64>)
    ensures
        r == read_u64(bytes@, at as int),
{
    broadcast use vstd::slice::group_slice_axioms;

    if at > bytes.len() || bytes.len() - at < 8 {
        return None;
    }
    Some(u64_from_le_bytes(slice_subrange(bytes, at, at + 8)))
}

fn take_blob(bytes: &[u8], at: usize) -> (r: Option<(Vec<u8>, usize)>)
    ensures
        match r {
            Some((data, end)) => read_blob(bytes@, at as int) == Some((data@, end as int))
                && end <= bytes@.len(),
            None => read_blob(bytes@, at as int) is None,
        },
{
    broadcast use vstd::slice::group_slice_axioms;

    match take_u64(bytes, at) {
        None => None,
        Some(n) => {
            let room: usize = bytes.len() - at - 8;
            if n > room as u64 {
                return None;
            }
            let end: usize = at + 8 + n as usize;
            Some((slice_to_vec(slice_subrange(bytes, at + 8, end)), end))
        },
    }
}

fn take_record(bytes: &[u8], at: usize) -> (r: Option<(Record, usize)>)
    ensures
        match r {
            Some((record, end)) => read_record(bytes@, at as int) == Some((record@, end as int))
                && end <= bytes@.len(),
            None => read_record(bytes@, at as int) is None,
        },
{
    broadcast use {vstd::slice::group_slice_axioms, vstd::utf8::encode_utf8_decode_utf8};

    let total: usize = bytes.len();
    let id: u64 = match take_u64(bytes, at) {
        Some(x) => x,
        None => { return None; },
    };
    assert(at + 8 <= total);
    let created_at: u64 = match take_u64(bytes, at + 8) {
        Some(x) => x,
        None => { return None; },
    };
    assert(at + 16 <= total);
    let (author, mid) = match take_blob(bytes, at + 16) {
        Some(x) => x,
        None => { return None; },
    };
    let (text, end) = match take_blob(bytes, mid) {
        Some(x) => x,
        None => { return None; },
    };
    let ghost raw = text@;
    match text_from_utf8(text) {
        Some(content) => {
            assert(content@ == decode_utf8(raw));
            Some((Record { id, author, content, created_at }, end))
        },
        None => None,
    }
}

/// Once the records cannot be read up to some count, they cannot be read up
/// to a greater one.
proof fn lemma_unreadable_stays(b: Seq<u8>, at: int, k: nat, n: nat)
    requires
        k <= n,
        read_records(b, at, k) is None,
    ensures
        read_records(b, at, n) is None,
    decreases n,
{
    if k < n {
        lemma_unreadable_stays(b, at, k, (n - 1) as nat);
    }
}

/// Reads a snapshot back into a store. Bytes that are not laid out as a
/// snapshot, or that spell out a state which breaks the store's invariant,
/// are refused.
pub fn decode(bytes: &[u8]) -> (r: Result<Store, SnapshotError>)
    ensures
        match r {
            Ok(store) => store.wf() && decoded(bytes@) == Ok::<StoreView, SnapshotError>(store@),
            Err(e) => decoded(bytes@) == Err::<StoreView, SnapshotError>(e),
        },
{
    broadcast use vstd::slice::group_slice_axioms;

    let next_id: u64 = match take_u64(bytes, 0) {
        Some(x) => x,
        None => { return Err(SnapshotError::Malformed); },
    };
    let count: u64 = match take_u64(bytes, 8) {
        Some(x) => x,
        None => { return Err(SnapshotError::Malformed); },
    };
    let mut records: Vec<Record> = Vec::new();
    let mut at: usize = 16;
    let mut k: u64 = 0;
    assert(record_views(records@) =~= Seq::empty());
    while k < count
        invariant
            k <= count,
            at <= bytes@.len(),
            read_u64(bytes@, 0) == Some(next_id),
            read_u64(bytes@, 8) == Some(count),
            read_records(bytes@, 16, k as nat) == Some((record_views(records@), at as int)),
        decreases count - k,
    {
        match take_record(bytes, at) {
            Some((record, end)) => {
                let ghost before = record_views(records@);
                records.push(record);
                assert(record_views(records@) =~= before.push(record@));
                at = end;
            },
            None => {
                proof {
                    assert(read_records(bytes@, 16, (k + 1) as nat) is None);
                    lemma_unreadable_stays(bytes@, 16, (k + 1) as nat, count as nat);
                }
                return Err(SnapshotError::Malformed);
            },
        }
        k = k + 1;
    }
    if at != bytes.len() {
        return Err(SnapshotError::Malformed);
    }
    match Store::from_parts(records, next_id) {
        Some(store) => Ok(store),
        None => Err(SnapshotError::Inconsistent),
    }
}

/// The piece stands in `b` from position `at` on.
pub open spec fn stands_at(b: Seq<u8>, at: int, piece: Seq<u8>) -> bool {
    &&& 0 <= at
    &&& at + piece.len() <= b.len()
    &&& b.subrange(at, at + piece.len()) == piece
}

proof fn lemma_stands_split(b: Seq<u8>, at: int, x: Seq<u8>, y: Seq<u8>)
    requires
        stands_at(b, at, x + y),
    ensures
        stands_at(b, at, x),
        stands_at(b, at + x.len(), y),
{
    let whole = b.subrange(at, at + (x + y).len());
    assert(b.subrange(at, at + x.len()) =~= whole.subrange(0, x.len() as int));
    assert(whole.subrange(0, x.len() as int) =~= x);
    assert(b.subrange(at + x.len(), at + x.len() + y.len()) =~= whole.subrange(
        x.len() as int,
        (x + y).len() as int,
    ));
    assert(whole.subrange(x.len() as int, (x + y).len() as int) =~= y);
}

proof fn lemma_read_u64_back(b: Seq<u8>, at: int, x: u64)
    requires
        stands_at(b, at, spec_u64_to_le_bytes(x)),
    ensures
        read_u64(b, at) == Some(x),
        spec_u64_to_le_bytes(x).len() == 8,
{
    lemma_auto_spec_u64_to_from_le_bytes();
}

proof fn lemma_read_blob_back(b: Seq<u8>, at: int, data: Seq<u8>)
    requires
        stands_at(b, at, blob_bytes(data)),
        data.len() <= u64::MAX,
    ensures
        read_blob(b, at) == Some((data, at + 8 + data.len())),
        blob_bytes(data).len() == 8 + data.len(),
{
    let n = data.len() as u64;
    lemma_stands_split(b, at, spec_u64_to_le_bytes(n), data);
    lemma_read_u64_back(b, at, n);
}

/// A record that was written out is read back as it was.
proof fn lemma_read_record_back(b: Seq<u8>, at: int, r: RecordView)
    requires
        stands_at(b, at, record_bytes(r)),
        r.fits(),
    ensures
        read_record(b, at) == Some((r, at + record_bytes(r).len())),
{
    broadcast use {vstd::utf8::encode_utf8_decode_utf8, vstd::utf8::encode_utf8_valid_utf8};

    let id = spec_u64_to_le_bytes(r.id);
    let ts = spec_u64_to_le_bytes(r.created_at);
    let author = blob_bytes(r.author);
    let text = blob_bytes(encode_utf8(r.content));
    lemma_stands_split(b, at, id + ts + author, text);
    lemma_stands_split(b, at, id + ts, author);
    lemma_stands_split(b, at, id, ts);
    lemma_read_u64_back(b, at, r.id);
    lemma_read_u64_back(b, at + 8, r.created_at);
    lemma_read_blob_back(b, at + 16, r.author);
    lemma_read_blob_back(b, at + 16 + 8 + r.author.len(), encode_utf8(r.content));
}

/// Records that were written out one after another are read back as they
/// were.
proof fn lemma_read_records_back(b: Seq<u8>, at: int, rs: Seq<RecordView>)
    requires
        stands_at(b, at, records_bytes(rs)),
        forall|i: int| 0 <= i < rs.len() ==> (#[trigger] rs[i]).fits(),
    ensures
        read_records(b, at, rs.len()) == Some((rs, at + records_bytes(rs).len())),
    decreases rs.len(),
{
    if rs.len() > 0 {
        let head = rs.drop_last();
        lemma_stands_split(b, at, records_bytes(head), record_bytes(rs.last()));
        lemma_read_records_back(b, at, head);
        lemma_read_record_back(b, at + records_bytes(head).len(), rs.last());
        assert(head.push(rs.last()) =~= rs);
    }
}

/// A snapshot that is read back gives the store that it was taken of: the
/// same records in the same order, the same in every field, and the same
/// cursor, so that the next creation returns the identifier that it would
/// have returned had the store never been written out.
pub proof fn lemma_snapshot_round_trip(s: StoreView)
    requires
        s.wf(),
    ensures
        decoded(snapshot_bytes(s)) == Ok::<StoreView, SnapshotError>(s),
{
    crate::store::lemma_count_below_cursor(s);
    let b = snapshot_bytes(s);
    let cursor = spec_u64_to_le_bytes(s.next_id);
    let count = spec_u64_to_le_bytes(s.records.len() as u64);
    assert(b.subrange(0, b.len() as int) =~= b);
    lemma_stands_split(b, 0, cursor + count, records_bytes(s.records));
    lemma_stands_split(b, 0, cursor, count);
    lemma_read_u64_back(b, 0, s.next_id);
    lemma_read_u64_back(b, 8, s.records.len() as u64);
    lemma_read_records_back(b, 16, s.records);
}

proof fn lemma_stands_join(b: Seq<u8>, at: int, x: Seq<u8>, y: Seq<u8>)
    requires
        stands_at(b, at, x),
        stands_at(b, at + x.len(), y),
    ensures
        stands_at(b, at, x + y),
{
    assert(b.subrange(at, at + (x + y).len()) =~= b.subrange(at, at + x.len()) + b.subrange(
        at + x.len(),
        at + x.len() + y.len(),
    ));
}

proof fn lemma_u64_as_read(b: Seq<u8>, at: int)
    requires
        read_u64(b, at) is Some,
    ensures
        stands_at(b, at, spec_u64_to_le_bytes(read_u64(b, at)->0)),
        spec_u64_to_le_bytes(read_u64(b, at)->0).len() == 8,
{
    lemma_auto_spec_u64_to_from_le_bytes();
    let piece = b.subrange(at, at + 8);
    assert(spec_u64_to_le_bytes(spec_u64_from_le_bytes(piece)) == piece);
}

proof fn lemma_blob_as_read(b: Seq<u8>, at: int, data: Seq<u8>, end: int)
    requires
        read_blob(b, at) == Some((data, end)),
    ensures
        stands_at(b, at, blob_bytes(data)),
        end == at + blob_bytes(data).len(),
        data.len() <= u64::MAX,
{
    lemma_u64_as_read(b, at);
    let n = read_u64(b, at)->0;
    assert(data.len() == n);
    lemma_stands_join(b, at, spec_u64_to_le_bytes(n), data);
}

/// Where a record can be read, the bytes that it was read from are the
/// record written out.
proof fn lemma_record_as_read(b: Seq<u8>, at: int, r: RecordView, end: int)
    requires
        read_record(b, at) == Some((r, end)),
    ensures
        stands_at(b, at, record_bytes(r)),
        end == at + record_bytes(r).len(),
        r.fits(),
{
    broadcast use vstd::utf8::decode_utf8_encode_utf8;

    lemma_u64_as_read(b, at);
    lemma_u64_as_read(b, at + 8);
    let (author, mid) = read_blob(b, at + 16)->0;
    lemma_blob_as_read(b, at + 16, author, mid);
    let (text, behind) = read_blob(b, mid)->0;
    lemma_blob_as_read(b, mid, text, behind);
    assert(encode_utf8(r.content) == text);
    let id = spec_u64_to_le_bytes(r.id);
    let ts = spec_u64_to_le_bytes(r.created_at);
    lemma_stands_join(b, at, id, ts);
    lemma_stands_join(b, at, id + ts, blob_bytes(r.author));
    lemma_stands_join(b, at, id + ts + blob_bytes(r.author), blob_bytes(text));
}

proof fn lemma_records_as_read(b: Seq<u8>, at: int, n: nat, rs: Seq<RecordView>, end: int)
    requires
        0 <= at <= b.len(),
        read_records(b, at, n) == Some((rs, end)),
    ensures
        rs.len() == n,
        stands_at(b, at, records_bytes(rs)),
        end == at + records_bytes(rs).len(),
        forall|i: int| 0 <= i < n ==> (#[trigger] rs[i]).fits(),
    decreases n,
{
    if n == 0 {
        assert(b.subrange(at, at) =~= Seq::<u8>::empty());
    } else {
        let m = (n - 1) as nat;
        let (head, mid) = read_records(b, at, m)->0;
        lemma_records_as_read(b, at, m, head, mid);
        let (r, behind) = read_record(b, mid)->0;
        lemma_record_as_read(b, mid, r, behind);
        assert(rs == head.push(r));
        assert(rs.drop_last() =~= head);
        lemma_stands_join(b, at, records_bytes(head), record_bytes(r));
    }
}

/// Only one run of bytes spells out a given state: bytes that are laid out
/// as a snapshot are, byte for byte, the snapshot of what is read from them.
pub proof fn lemma_snapshot_unique(b: Seq<u8>, s: StoreView)
    requires
        parse(b) == Some(s),
    ensures
        snapshot_bytes(s) == b,
{
    lemma_u64_as_read(b, 0);
    lemma_u64_as_read(b, 8);
    let count = read_u64(b, 8)->0;
    let (rs, end) = read_records(b, 16, count as nat)->0;
    lemma_records_as_read(b, 16, count as nat, rs, end);
    let cursor = spec_u64_to_le_bytes(s.next_id);
    let counted = spec_u64_to_le_bytes(count);
    lemma_stands_join(b, 0, cursor, counted);
    lemma_stands_join(b, 0, cursor + counted, records_bytes(s.records));
    assert(b.subrange(0, b.len() as int) =~= b);
}

} // verus!
