//! The record: plain data, fixed once created.

use vstd::prelude::*;
use vstd::utf8::encode_utf8;

verus! {

/// What a record is, mathematically.
pub struct RecordView {
    pub id: u64,
    pub author: Seq<u8>,
    pub content: Seq<char>,
    pub created_at: u64,
}

impl RecordView {
    /// The author and the text, as UTF-8, are each short enough for their
    /// length to be written as a 64-bit number. Every record held in memory
    /// meets this.
    pub open spec fn fits(self) -> bool {
        &&& self.author.len() <= u64::MAX
        &&& encode_utf8(self.content).len() <= u64::MAX
    }
}

/// A stored unit of content.
#[derive(Debug, PartialEq, Eq)]
pub struct Record {
    /// Assigned by the store, never by the client.
    pub id: u64,
    /// The identity of whoever created the record, as opaque bytes.
    pub author: Vec<u8>,
    /// The text that was submitted.
    pub content: String,
    /// Nanoseconds, as the host's clock gave them at creation.
    pub created_at: u64,
}

impl View for Record {
    type V = RecordView;

    open spec fn view(&self) -> RecordView {
        RecordView {
            id: self.id,
            author: self.author@,
            content: self.content@,
            created_at: self.created_at,
        }
    }
}

/// The views of a sequence of records, in the same order.
pub open spec fn record_views(records: Seq<Record>) -> Seq<RecordView> {
    records.map_values(|r: Record| r@)
}

impl Clone for Record {
    fn clone(&self) -> (r: Record)
        ensures
            r@ == self@,
    {
        Record {
            id: self.id,
            author: self.author.clone(),
            content: self.content.clone(),
            created_at: self.created_at,
        }
    }
}

impl Record {
    /// Lengths in memory are machine words, so a record in memory always
    /// fits a snapshot. Asking for the two lengths is what tells the
    /// verifier so.
    pub(crate) fn note_fits(&self)
        ensures
            self@.fits(),
    {
        broadcast use vstd::slice::group_slice_axioms;

        let _author_len: usize = self.author.len();
        let _text_len: usize = self.content.as_str().as_bytes().len();
    }
}

} // verus!
