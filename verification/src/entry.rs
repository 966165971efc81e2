//! Log records and their index offsets.

use vstd::prelude::*;

verus! {

/// One log record: either a write of `key` to `val`, or a removal of `key`.
pub enum Entry {
    Put { key: String, val: String },
    Rm { key: String },
}

/// The mathematical shape of a record: the same two variants over
/// character sequences.
pub enum EntryView {
    Put { key: Seq<char>, val: Seq<char> },
    Rm { key: Seq<char> },
}

impl View for Entry {
    type V = EntryView;

    open spec fn view(&self) -> EntryView {
        match self {
            Entry::Put { key, val } => EntryView::Put { key: key@, val: val@ },
            Entry::Rm { key } => EntryView::Rm { key: key@ },
        }
    }
}

impl Entry {
    /// Builds a `Set` record.
    pub fn init_set(key: String, val: String) -> (e: Entry)
        ensures
            e@ == (EntryView::Put { key: key@, val: val@ }),
    {
        Entry::Put { key, val }
    }

    /// Builds a `Rm` record.
    pub fn init_rm(key: String) -> (e: Entry)
        ensures
            e@ == (EntryView::Rm { key: key@ }),
    {
        Entry::Rm { key }
    }
}

/// Where a key's latest `Set` record lives: byte range `[start, end)` of
/// segment `file_id`.
#[derive(Clone, Copy, Debug, PartialEq, Eq, Structural)]
pub struct EntryOffset {
    pub file_id: u32,
    pub start: u64,
    pub end: u64,
}

} // verus!
