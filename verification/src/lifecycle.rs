//! The life of a store across stops and starts of its process.
//!
//! The host calls `on_start` when a process begins with nothing to restore,
//! `on_suspend` just before it stops the process or replaces its code, and
//! `on_resume` just after a process begins with a snapshot at hand. Saving
//! and loading the snapshot is the host's part: `on_suspend` hands the bytes
//! out and `on_resume` takes them in.

use vstd::prelude::*;
use crate::record::{Record, record_views};
use crate::snapshot::{SnapshotError, decode, decoded, encode, lemma_snapshot_round_trip, snapshot_bytes};
use crate::store::{Store, StoreView, Submission};

verus! {

/// Where a process stands in its life.
#[derive(Debug, Clone, Copy, PartialEq, Eq, Structural)]
pub enum Phase {
    /// Begun, with nothing started or restored yet.
    Fresh,
    /// In normal operation.
    Running,
    /// A snapshot has been handed out; the process is about to stop.
    Suspended,
}

/// What a service is, mathematically.
pub struct ServiceView {
    pub phase: Phase,
    pub store: StoreView,
}

/// The one owner of a process's store, and the place where the host's calls
/// arrive.
#[derive(Debug)]
pub struct Service {
    phase: Phase,
    store: Store,
}

impl View for Service {
    type V = ServiceView;

    closed spec fn view(&self) -> ServiceView {
        ServiceView { phase: self.phase, store: self.store@ }
    }
}

impl Service {
    /// The invariant: that of the store.
    pub open spec fn wf(&self) -> bool {
        self@.store.wf()
    }

    /// The service of a process that has just begun: fresh, with an empty
    /// store.
    pub fn new() -> (s: Service)
        ensures
            s.wf(),
            s@.phase == Phase::Fresh,
            s@.store == StoreView::empty(),
    {
        Service { phase: Phase::Fresh, store: Store::new() }
    }

    /// Where the process stands.
    pub fn phase(&self) -> (p: Phase)
        ensures
            p == self@.phase,
    {
        self.phase
    }

    /// The store, to read.
    pub fn store(&self) -> (s: &Store)
        ensures
            s@ == self@.store,
    {
        &self.store
    }

    /// The first start ever: the store becomes empty, with the cursor at 0,
    /// and the service runs.
    pub fn on_start(&mut self)
        ensures
            final(self).wf(),
            final(self)@.phase == Phase::Running,
            final(self)@.store == StoreView::empty(),
    {
        self.store = Store::new();
        self.phase = Phase::Running;
    }

    /// Before the process stops: hands out the snapshot of the whole store,
    /// for the host to save, and leaves the store as it is. The snapshot,
    /// read back, gives this very state.
    pub fn on_suspend(&mut self) -> (blob: Vec<u8>)
        requires
            old(self).wf(),
        ensures
            final(self).wf(),
            final(self)@.phase == Phase::Suspended,
            final(self)@.store == old(self)@.store,
            blob@ == snapshot_bytes(old(self)@.store),
            decoded(blob@) == Ok::<StoreView, SnapshotError>(old(self)@.store),
    {
        let blob = encode(&self.store);
        self.phase = Phase::Suspended;
        proof {
            lemma_snapshot_round_trip(self.store@);
        }
        blob
    }

    /// After the process has begun again: takes the snapshot that the host
    /// loaded and puts the state that it spells out in place of the whole
    /// store, after which the service runs. Where the bytes are refused the
    /// error is returned and nothing changes.
    pub fn on_resume(&mut self, blob: &[u8]) -> (r: Result<(), SnapshotError>)
        ensures
            match decoded(blob@) {
                Ok(s) => r is Ok && final(self).wf() && final(self)@.phase == Phase::Running
                    && final(self)@.store == s,
                Err(e) => r == Err::<(), SnapshotError>(e) && final(self)@ == old(self)@,
            },
    {
        match decode(blob) {
            Ok(store) => {
                self.store = store;
                self.phase = Phase::Running;
                Ok(())
            },
            Err(e) => Err(e),
        }
    }

    /// Stores the text as a new record of this author, made at this time,
    /// and returns the record.
    pub fn create_post(&mut self, content: String, author: Vec<u8>, timestamp: u64) -> (r: Record)
        requires
            old(self).wf(),
            old(self)@.store.next_id < u64::MAX,
        ensures
            final(self).wf(),
            final(self)@.phase == old(self)@.phase,
            r@ == old(self)@.store.fresh_record(
                Submission { content: content@, author: author@, timestamp },
            ),
            final(self)@.store == old(self)@.store.created(
                Submission { content: content@, author: author@, timestamp },
            ),
            final(self)@.store.lookup(r.id) == Some(r@),
    {
        self.store.create(content, author, timestamp)
    }

    /// The record with this identifier, or nothing where none has it.
    pub fn get_post(&self, id: u64) -> (r: Option<Record>)
        requires
            self.wf(),
        ensures
            match r {
                Some(rec) => self@.store.lookup(id) == Some(rec@),
                None => self@.store.lookup(id) is None,
            },
    {
        self.store.get(id)
    }

    /// Every record, in creation order.
    pub fn get_all_posts(&self) -> (r: Vec<Record>)
        requires
            self.wf(),
        ensures
            record_views(r@) == self@.store.records,
            forall|i: int, j: int| 0 <= i < j < r.len() ==> r[i].id < r[j].id,
    {
        self.store.list()
    }
}

/// A state that is handed out on suspension and taken in again on resumption
/// is the state that was there before, and the next creation after it returns
/// the identifier that it would have returned without the stop.
pub proof fn lemma_reload_keeps_state(s: StoreView, sub: Submission)
    requires
        s.wf(),
    ensures
        decoded(snapshot_bytes(s)) == Ok::<StoreView, SnapshotError>(s),
        decoded(snapshot_bytes(s))->Ok_0.fresh_record(sub).id == s.next_id,
{
    lemma_snapshot_round_trip(s);
}

} // verus!
