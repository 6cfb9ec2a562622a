//! The plain journal: a thin façade over any entry storage, translating
//! entry-model errors into journal-level errors.

use vstd::prelude::*;

use crate::entry::{
    contains_id, entries_wf, idx_of, spec_delete, spec_save, Entry, EntryStorage,
    Error as EntryError, EntryV,
};

verus! {

/// A simple, non-encrypted journal.
pub struct PlainJournal<E> {
    entry_storage: E,
}

/// All possible plain-journal-related errors.
#[derive(Debug)]
pub enum Error {
    /// The wrapped entry-model error.
    EntryError(EntryError),
}

impl From<EntryError> for Error {
    fn from(e: EntryError) -> (r: Self) {
        Error::EntryError(e)
    }
}

impl vstd::std_specs::convert::FromSpecImpl<EntryError> for Error {
    open spec fn obeys_from_spec() -> bool {
        true
    }

    open spec fn from_spec(e: EntryError) -> Self {
        Error::EntryError(e)
    }
}

impl<E: EntryStorage> PlainJournal<E> {
    /// The stored collection, as the underlying storage holds it.
    pub closed spec fn entries(&self) -> Seq<EntryV> {
        self.entry_storage.entries()
    }

    /// The journal's invariant: the storage's.
    pub closed spec fn inv(&self) -> bool {
        self.entry_storage.inv()
    }

    /// The invariant guarantees a well-formed collection.
    pub proof fn lemma_inv(&self)
        requires
            self.inv(),
        ensures
            entries_wf(self.entries()),
    {
        self.entry_storage.lemma_inv();
    }

    /// Returns new plain journal.
    pub fn new(entry_storage: E) -> (r: Self)
        ensures
            r.inv() == entry_storage.inv(),
            r.entries() == entry_storage.entries(),
    {
        Self { entry_storage }
    }

    /// The underlying entry storage.
    pub fn storage(&self) -> (r: &E)
        ensures
            r.entries() == self.entries(),
            r.inv() == self.inv(),
    {
        &self.entry_storage
    }

    /// Returns entry by given `id`.
    pub fn get_entry(&self, id: &str) -> (r: Result<Entry, Error>)
        requires
            self.inv(),
        ensures
            match r {
                Ok(e) => contains_id(self.entries(), id@) && e@ == self.entries()[idx_of(
                    self.entries(),
                    id@,
                )],
                Err(err) => !contains_id(self.entries(), id@) && (err matches Error::EntryError(
                    inner,
                ) && (inner matches EntryError::NotFound(s) && s@ == id@)),
            },
    {
        match self.entry_storage.get(id) {
            Ok(e) => Ok(e),
            Err(e) => Err(Error::EntryError(e)),
        }
    }

    /// Returns all entries, in their stored order.
    pub fn get_entries(&self) -> (r: Result<Vec<Entry>, Error>)
        requires
            self.inv(),
        ensures
            r matches Ok(v) && v@.len() == self.entries().len() && (forall|i: int|
                0 <= i < v@.len() ==> (#[trigger] v@[i])@ == self.entries()[i]),
    {
        match self.entry_storage.get_all() {
            Ok(v) => Ok(v),
            Err(e) => Err(Error::EntryError(e)),
        }
    }

    /// Saves given `entry`.
    pub fn save_entry(&mut self, entry: Entry) -> (r: Result<Entry, Error>)
        requires
            old(self).inv(),
            entry@.wf(),
        ensures
            final(self).inv(),
            final(self).entries() == spec_save(old(self).entries(), entry@),
            match r {
                Ok(e) => e@ == entry@,
                Err(err) => err matches Error::EntryError(inner) && (
                inner matches EntryError::IOError(_) || inner matches EntryError::JsonError),
            },
    {
        match self.entry_storage.save(entry) {
            Ok(e) => Ok(e),
            Err(e) => Err(Error::EntryError(e)),
        }
    }

    /// Deletes entry by given `id`.
    pub fn delete_entry(&mut self, id: &str) -> (r: Result<(), Error>)
        requires
            old(self).inv(),
        ensures
            final(self).inv(),
            match r {
                Ok(_) => contains_id(old(self).entries(), id@) && final(self).entries()
                    == spec_delete(old(self).entries(), id@),
                Err(err) => err matches Error::EntryError(inner) && ((
                inner matches EntryError::NotFound(s) && s@ == id@ && !contains_id(
                    old(self).entries(),
                    id@,
                ) && final(self).entries() == old(self).entries()) || (
                inner matches EntryError::IOError(_) && contains_id(old(self).entries(), id@)
                    && final(self).entries() == spec_delete(old(self).entries(), id@))),
            },
    {
        match self.entry_storage.delete(id) {
            Ok(u) => Ok(u),
            Err(e) => Err(Error::EntryError(e)),
        }
    }
}

} // verus!
