//! A personal journal: dated text entries keyed by a day-derived identifier,
//! durably kept in one structured file, with merge-on-save semantics,
//! ordered retrieval and uniqueness of identifiers.

use vstd::prelude::*;

pub mod chars;
pub mod date;
pub mod entry;
pub mod json;
pub mod plain;

use crate::entry::EntryStorage;
use crate::plain::PlainJournal;

verus! {

/// Some kind of journal.
pub enum Journal<E> {
    Plain(PlainJournal<E>),
}

impl<E: EntryStorage> Journal<E> {
    /// Wraps the storage in a journal; only the plain journal is available
    /// right now.
    pub fn new(entry_storage: E) -> (r: Self)
        ensures
            r matches Journal::Plain(j) && j.inv() == entry_storage.inv() && j.entries()
                == entry_storage.entries(),
    {
        Self::Plain(PlainJournal::new(entry_storage))
    }
}

} // verus!
