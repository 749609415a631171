//! The record store: the records in creation order and the identifier cursor.

use vstd::prelude::*;
use crate::record::{Record, RecordView, record_views};

verus! {

/// What a store is, mathematically: its records in creation order, and the
/// identifier that the next record will get.
pub struct StoreView {
    pub records: Seq<RecordView>,
    pub next_id: u64,
}

/// One call of `create`, as the values handed to it.
pub struct Submission {
    pub content: Seq<char>,
    pub author: Seq<u8>,
    pub timestamp: u64,
}

impl StoreView {
    /// The store of a process that has just started for the first time.
    pub open spec fn empty() -> StoreView {
        StoreView { records: Seq::empty(), next_id: 0 }
    }

    /// The invariant: identifiers rise strictly along the records, the cursor
    /// lies above all of them, and every record fits a snapshot.
    pub open spec fn wf(self) -> bool {
        &&& forall|i: int|
            0 <= i < self.records.len() ==> (#[trigger] self.records[i]).id < self.next_id
                && self.records[i].fits()
        &&& forall|i: int, j: int|
            0 <= i < j < self.records.len() ==> (#[trigger] self.records[i]).id
                < (#[trigger] self.records[j]).id
    }

    /// Some record carries this identifier.
    pub open spec fn holds(self, id: u64) -> bool {
        exists|i: int| 0 <= i < self.records.len() && (#[trigger] self.records[i]).id == id
    }

    /// The record with this identifier, if there is one.
    pub open spec fn lookup(self, id: u64) -> Option<RecordView> {
        if self.holds(id) {
            Some(
                self.records[choose|i: int|
                    0 <= i < self.records.len() && (#[trigger] self.records[i]).id == id],
            )
        } else {
            None
        }
    }

    /// The record that the next creation makes of a submission.
    pub open spec fn fresh_record(self, sub: Submission) -> RecordView {
        RecordView {
            id: self.next_id,
            author: sub.author,
            content: sub.content,
            created_at: sub.timestamp,
        }
    }

    /// The store after one more creation. Meant for a cursor below `u64::MAX`.
    pub open spec fn created(self, sub: Submission) -> StoreView {
        StoreView {
            records: self.records.push(self.fresh_record(sub)),
            next_id: (self.next_id + 1) as u64,
        }
    }

    /// The store after a run of creations, first to last.
    pub open spec fn after(self, subs: Seq<Submission>) -> StoreView
        decreases subs.len(),
    {
        if subs.len() == 0 {
            self
        } else {
            self.after(subs.drop_last()).created(subs.last())
        }
    }

    /// The identifier that the creation at position `i` of a run returns.
    pub open spec fn issued(self, subs: Seq<Submission>, i: int) -> u64 {
        self.after(subs.take(i)).next_id
    }
}

/// In a well-formed store a record is found by its identifier alone.
pub proof fn lemma_lookup_at(s: StoreView, i: int)
    requires
        s.wf(),
        0 <= i < s.records.len(),
    ensures
        s.lookup(s.records[i].id) == Some(s.records[i]),
{
    let id = s.records[i].id;
    assert(s.holds(id));
    let k = choose|k: int| 0 <= k < s.records.len() && (#[trigger] s.records[k]).id == id;
    if k < i {
        assert(s.records[k].id < s.records[i].id);
    } else if i < k {
        assert(s.records[i].id < s.records[k].id);
    }
}

/// The record store. It alone owns the records and the cursor.
#[derive(Debug)]
pub struct Store {
    records: Vec<Record>,
    next_id: u64,
}

impl View for Store {
    type V = StoreView;

    closed spec fn view(&self) -> StoreView {
        StoreView { records: record_views(self.records@), next_id: self.next_id }
    }
}

impl Store {
    /// The invariant that every operation keeps.
    pub open spec fn wf(&self) -> bool {
        self@.wf()
    }

    /// An empty store whose first record will get identifier 0.
    pub fn new() -> (s: Store)
        ensures
            s.wf(),
            s@ == StoreView::empty(),
    {
        let s = Store { records: Vec::new(), next_id: 0 };
        assert(s@.records =~= Seq::empty());
        s
    }

    /// The identifier that the next record will get.
    pub fn next_id(&self) -> (k: u64)
        ensures
            k == self@.next_id,
    {
        self.next_id
    }

    /// How many records the store holds.
    pub fn len(&self) -> (n: usize)
        ensures
            n == self@.records.len(),
    {
        self.records.len()
    }

    /// Whether the cursor has reached the last 64-bit number, after which no
    /// record can be created.
    pub fn is_exhausted(&self) -> (b: bool)
        ensures
            b == (self@.next_id == u64::MAX),
    {
        self.next_id == u64::MAX
    }

    /// The records in creation order, borrowed.
    pub fn records(&self) -> (r: &Vec<Record>)
        ensures
            record_views(r@) == self@.records,
    {
        &self.records
    }

    /// A store made of records and a cursor that come from elsewhere, where
    /// they meet the invariant; nothing where they do not.
    pub fn from_parts(records: Vec<Record>, next_id: u64) -> (r: Option<Store>)
        ensures
            match r {
                Some(s) => s.wf() && s@ == (StoreView {
                    records: record_views(records@),
                    next_id,
                }),
                None => !(StoreView { records: record_views(records@), next_id }).wf(),
            },
    {
        let ghost target = StoreView { records: record_views(records@), next_id };
        let mut i: usize = 0;
        while i < records.len()
            invariant
                i <= records.len(),
                target == (StoreView { records: record_views(records@), next_id }),
                forall|k: int| 0 <= k < i ==> (#[trigger] target.records[k]).id < next_id
                    && target.records[k].fits(),
                forall|a: int, b: int|
                    0 <= a < b < i ==> (#[trigger] target.records[a]).id
                        < (#[trigger] target.records[b]).id,
            decreases records.len() - i,
        {
            let id: u64 = records[i].id;
            assert(target.records[i as int].id == id);
            if id >= next_id {
                return None;
            }
            if i > 0 {
                let before: u64 = records[i - 1].id;
                assert(target.records[i - 1].id == before);
                if before >= id {
                    return None;
                }
            }
            records[i].note_fits();
            assert(target.records[i as int].fits());
            assert forall|a: int, b: int| 0 <= a < b < i + 1 implies (#[trigger] target.records[a]).id
                < (#[trigger] target.records[b]).id by {
                if b == i && a < i - 1 {
                    assert(target.records[a].id < target.records[i - 1].id);
                }
            }
            i = i + 1;
        }
        Some(Store { records, next_id })
    }

    /// Stores a new record under the cursor's identifier, moves the cursor on
    /// by one and returns the record.
    pub fn create(&mut self, content: String, author: Vec<u8>, timestamp: u64) -> (r: Record)
        requires
            old(self).wf(),
            old(self)@.next_id < u64::MAX,
        ensures
            final(self).wf(),
            r@ == old(self)@.fresh_record(
                Submission { content: content@, author: author@, timestamp },
            ),
            final(self)@ == old(self)@.created(
                Submission { content: content@, author: author@, timestamp },
            ),
            r.id == old(self)@.next_id,
            final(self)@.next_id == old(self)@.next_id + 1,
            final(self)@.lookup(r.id) == Some(r@),
            forall|id: u64| id != r.id ==> final(self)@.lookup(id) == old(self)@.lookup(id),
    {
        let record = Record { id: self.next_id, author, content, created_at: timestamp };
        record.note_fits();
        let copy = record.clone();
        let ghost before = self@;
        self.records.push(record);
        self.next_id = self.next_id + 1;
        proof {
            let sub = Submission { content: copy@.content, author: copy@.author, timestamp };
            assert(self@.records =~= before.records.push(copy@));
            lemma_created_keeps(before, sub);
        }
        copy
    }

    /// The record with this identifier, or nothing where no record has it.
    pub fn get(&self, id: u64) -> (r: Option<Record>)
        requires
            self.wf(),
        ensures
            match r {
                Some(rec) => self@.lookup(id) == Some(rec@),
                None => self@.lookup(id) is None,
            },
            id >= self@.next_id ==> r is None,
    {
        let mut lo: usize = 0;
        let mut hi: usize = self.records.len();
        while lo < hi
            invariant
                self.wf(),
                lo <= hi <= self.records.len(),
                forall|i: int| 0 <= i < lo ==> (#[trigger] self@.records[i]).id < id,
                forall|i: int| hi <= i < self.records.len() ==> (#[trigger] self@.records[i]).id > id,
            decreases hi - lo,
        {
            let mid: usize = lo + (hi - lo) / 2;
            let k: u64 = self.records[mid].id;
            assert(self@.records[mid as int].id == k);
            if k == id {
                proof {
                    lemma_lookup_at(self@, mid as int);
                }
                return Some(self.records[mid].clone());
            } else if k < id {
                lo = mid + 1;
            } else {
                hi = mid;
            }
        }
        None
    }

    /// Every record, in creation order, which is ascending order of
    /// identifier. The result is a copy: later creations do not show in it.
    pub fn list(&self) -> (r: Vec<Record>)
        requires
            self.wf(),
        ensures
            record_views(r@) == self@.records,
            forall|i: int, j: int| 0 <= i < j < r.len() ==> r[i].id < r[j].id,
    {
        let mut out: Vec<Record> = Vec::new();
        let mut i: usize = 0;
        while i < self.records.len()
            invariant
                i <= self.records.len(),
                out.len() == i,
                forall|k: int| 0 <= k < i ==> out[k]@ == self.records[k]@,
            decreases self.records.len() - i,
        {
            out.push(self.records[i].clone());
            i = i + 1;
        }
        assert(record_views(out@) =~= self@.records);
        assert forall|a: int, b: int| 0 <= a < b < out.len() implies out[a].id < out[b].id by {
            assert(self@.records[a].id < self@.records[b].id);
        }
        out
    }
}

impl Default for Store {
    /// The empty store.
    fn default() -> (s: Store)
        ensures
            s.wf(),
            s@ == StoreView::empty(),
    {
        Store::new()
    }
}

/// A creation keeps the invariant, makes the new record findable and leaves
/// every other identifier as it was.
pub proof fn lemma_created_keeps(s: StoreView, sub: Submission)
    requires
        s.wf(),
        s.next_id < u64::MAX,
        s.fresh_record(sub).fits(),
    ensures
        s.created(sub).wf(),
        s.created(sub).lookup(s.next_id) == Some(s.fresh_record(sub)),
        forall|id: u64| id != s.next_id ==> s.created(sub).lookup(id) == s.lookup(id),
{
    let t = s.created(sub);
    let n = s.records.len() as int;
    assert(t.records[n] == s.fresh_record(sub));
    assert forall|i: int| 0 <= i < n implies t.records[i] == s.records[i] by {}
    assert(t.wf());
    lemma_lookup_at(t, n);
    assert forall|id: u64| id != s.next_id implies t.lookup(id) == s.lookup(id) by {
        if s.holds(id) {
            let k = choose|k: int| 0 <= k < s.records.len() && (#[trigger] s.records[k]).id == id;
            assert(t.records[k] == s.records[k]);
            lemma_lookup_at(t, k);
            lemma_lookup_at(s, k);
        } else {
            if t.holds(id) {
                let k = choose|k: int|
                    0 <= k < t.records.len() && (#[trigger] t.records[k]).id == id;
                assert(k < n);
                assert(s.records[k].id == id);
                assert(false);
            }
        }
    }
}

/// Above the cursor nothing is stored: an identifier that has not been given
/// out yet finds no record.
pub proof fn lemma_beyond_cursor_absent(s: StoreView, id: u64)
    requires
        s.wf(),
        id >= s.next_id,
    ensures
        s.lookup(id) is None,
{
}

/// A run of creations moves the cursor on by its length and adds as many
/// records.
pub proof fn lemma_after_counts(s: StoreView, subs: Seq<Submission>)
    requires
        s.next_id + subs.len() <= u64::MAX,
    ensures
        s.after(subs).next_id == s.next_id + subs.len(),
        s.after(subs).records.len() == s.records.len() + subs.len(),
    decreases subs.len(),
{
    if subs.len() > 0 {
        lemma_after_counts(s, subs.drop_last());
    }
}

/// A run of creations whose submissions fit keeps the invariant.
pub proof fn lemma_after_keeps(s: StoreView, subs: Seq<Submission>)
    requires
        s.wf(),
        s.next_id + subs.len() <= u64::MAX,
        forall|i: int| 0 <= i < subs.len() ==> s.fresh_record(#[trigger] subs[i]).fits(),
    ensures
        s.after(subs).wf(),
    decreases subs.len(),
{
    if subs.len() > 0 {
        let head = subs.drop_last();
        lemma_after_keeps(s, head);
        lemma_after_counts(s, head);
        assert(s.fresh_record(subs[subs.len() - 1]).fits());
        lemma_created_keeps(s.after(head), subs.last());
    }
}

/// The identifiers that a run of creations returns rise strictly in call
/// order, so no two of them are equal. The creation at position `i` returns
/// the cursor's start plus `i`.
pub proof fn lemma_issued_ids_rise(s: StoreView, subs: Seq<Submission>)
    requires
        s.next_id + subs.len() <= u64::MAX,
    ensures
        forall|i: int| 0 <= i < subs.len() ==> #[trigger] s.issued(subs, i) == s.next_id + i,
        forall|i: int, j: int|
            0 <= i < j < subs.len() ==> #[trigger] s.issued(subs, i) < #[trigger] s.issued(
                subs,
                j,
            ),
{
    assert forall|i: int| 0 <= i < subs.len() implies #[trigger] s.issued(subs, i) == s.next_id
        + i by {
        lemma_after_counts(s, subs.take(i));
    }
}

/// A run of creations adds one record for each of its calls and leaves the
/// records that were there before where they were.
pub proof fn lemma_after_keeps_earlier(s: StoreView, subs: Seq<Submission>)
    ensures
        s.after(subs).records.len() == s.records.len() + subs.len(),
        s.after(subs).records.take(s.records.len() as int) == s.records,
    decreases subs.len(),
{
    let n = s.records.len() as int;
    if subs.len() > 0 {
        let head = subs.drop_last();
        lemma_after_keeps_earlier(s, head);
        assert(s.after(subs).records.take(n) =~= s.after(head).records.take(n));
    } else {
        assert(s.records.take(n) =~= s.records);
    }
}

/// After a run of creations the records that it added stand behind the
/// earlier ones in call order, each with the identifier that its creation
/// returned and the values that were submitted.
pub proof fn lemma_records_in_creation_order(s: StoreView, subs: Seq<Submission>, i: int)
    requires
        s.next_id + subs.len() <= u64::MAX,
        0 <= i < subs.len(),
    ensures
        s.after(subs).records.len() == s.records.len() + subs.len(),
        s.after(subs).records[s.records.len() + i] == (RecordView {
            id: s.issued(subs, i),
            author: subs[i].author,
            content: subs[i].content,
            created_at: subs[i].timestamp,
        }),
    decreases subs.len(),
{
    let head = subs.drop_last();
    lemma_after_keeps_earlier(s, subs);
    lemma_after_keeps_earlier(s, head);
    if i < subs.len() - 1 {
        lemma_records_in_creation_order(s, head, i);
        assert(head.take(i) == subs.take(i));
    } else {
        assert(subs.take(i) == head);
    }
}

/// Counted from a fresh start, an identifier that no creation of the run has
/// returned finds no record afterwards.
pub proof fn lemma_never_issued_absent(subs: Seq<Submission>, id: u64)
    requires
        subs.len() <= u64::MAX,
        forall|i: int|
            0 <= i < subs.len() ==> StoreView::empty().fresh_record(#[trigger] subs[i]).fits(),
        forall|i: int| 0 <= i < subs.len() ==> StoreView::empty().issued(subs, i) != id,
    ensures
        StoreView::empty().after(subs).lookup(id) is None,
{
    let s = StoreView::empty();
    lemma_after_keeps(s, subs);
    lemma_after_counts(s, subs);
    lemma_issued_ids_rise(s, subs);
    if id < subs.len() {
        assert(s.issued(subs, id as int) == id);
    }
}

/// The first creation after a fresh start returns identifier 0.
pub proof fn lemma_fresh_first_id(sub: Submission)
    ensures
        StoreView::empty().records.len() == 0,
        StoreView::empty().fresh_record(sub).id == 0,
        StoreView::empty().created(sub).next_id == 1,
{
}

/// In a well-formed store the record at position `i` has an identifier of at
/// least `i`.
pub proof fn lemma_id_at_least_position(s: StoreView, i: int)
    requires
        s.wf(),
        0 <= i < s.records.len(),
    ensures
        s.records[i].id >= i,
    decreases i,
{
    if i > 0 {
        lemma_id_at_least_position(s, i - 1);
        assert(s.records[i - 1].id < s.records[i].id);
    }
}

/// A well-formed store holds no more records than its cursor says were
/// created.
pub proof fn lemma_count_below_cursor(s: StoreView)
    requires
        s.wf(),
    ensures
        s.records.len() <= s.next_id,
{
    if s.records.len() > 0 {
        lemma_id_at_least_position(s, s.records.len() - 1);
    }
}

} // verus!
