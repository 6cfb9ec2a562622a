//! The file-backed storage backend: the in-memory mirror of one file's
//! entry collection. The caller reads the file and hands its characters to
//! `new`, and writes `to_json` back after every mutation; the collection
//! semantics — merge-on-save, front insertion, ordered retrieval — live
//! here, verified.

use vstd::prelude::*;

use crate::chars::{from_chars, str_eq, to_chars};
use crate::entry::{
    contains_id, entries_wf, idx_of, lemma_delete_removes, lemma_idx_of, lemma_save_wf,
    spec_delete, spec_save, views, Entry, EntryStorage, EntryV, Error,
};
use crate::json::codec::{
    lemma_parse_json_wf, parse_json, spec_json, spec_parse_json, to_json_chars,
};

verus! {

/// Blank file content: nothing but JSON whitespace, the valid
/// no-entries-yet state of a fresh or empty file.
pub open spec fn json_blank(s: Seq<char>) -> bool {
    forall|i: int|
        0 <= i < s.len() ==> (#[trigger] s[i]) == ' ' || s[i] == '\t' || s[i] == '\n' || s[i]
            == '\r'
}

/// Law: a well-formed collection's serialized form is not blank and parses
/// back to the identical collection — reopening storage against the same
/// file after a successful save reconstructs what was in memory.
pub proof fn lemma_reopen_identical(es: Seq<EntryV>)
    requires
        entries_wf(es),
    ensures
        !json_blank(spec_json(es)),
        spec_parse_json(spec_json(es)) == Some(es),
{
    crate::json::codec::lemma_json_roundtrip(es);
    assert(spec_json(es)[0] == '[');
}

/// A json-file storage for entries.
#[derive(Debug)]
pub struct JsonEntryStorage {
    entries: Vec<Entry>,
}

/// Whether the characters are blank in the sense of `json_blank`.
fn is_blank(v: &Vec<char>) -> (r: bool)
    ensures
        r == json_blank(v@),
{
    let mut i: usize = 0;
    while i < v.len()
        invariant
            0 <= i <= v@.len(),
            forall|k: int|
                0 <= k < i ==> (#[trigger] v@[k]) == ' ' || v@[k] == '\t' || v@[k] == '\n'
                    || v@[k] == '\r',
        decreases v@.len() - i,
    {
        let c = v[i];
        if c != ' ' && c != '\t' && c != '\n' && c != '\r' {
            return false;
        }
        i = i + 1;
    }
    true
}

impl JsonEntryStorage {
    /// Opens a storage from its file's characters. Blank content is the
    /// valid empty state, not an error; anything else must parse as the
    /// collection format.
    pub fn new(content: &str) -> (r: Result<Self, Error>)
        ensures
            r matches Ok(st) ==> st.inv(),
            json_blank(content@) ==> (r matches Ok(st) && st.entries()
                == Seq::<EntryV>::empty() && st.inv()),
            !json_blank(content@) ==> match spec_parse_json(content@) {
                Some(es) => r matches Ok(st) && st.entries() == es && st.inv(),
                None => r matches Err(Error::JsonError),
            },
    {
        let cv = to_chars(content);
        if is_blank(&cv) {
            let st = JsonEntryStorage { entries: Vec::new() };
            proof {
                assert(views(st.entries@) =~= Seq::<EntryV>::empty());
            }
            return Ok(st);
        }
        match parse_json(&cv) {
            Some(out) => {
                proof {
                    lemma_parse_json_wf(content@);
                }
                Ok(JsonEntryStorage { entries: out })
            },
            None => Err(Error::JsonError),
        }
    }

    /// The serialized form of the collection, as the file must hold it after
    /// a mutation.
    pub fn to_json(&self) -> (r: String)
        requires
            self.inv(),
        ensures
            r@ == spec_json(self.entries()),
    {
        proof {
            assert forall|k: int| 0 <= k < self.entries@.len() implies (#[trigger] self.entries@[k])@.wf() by {
                assert(views(self.entries@)[k] == self.entries@[k]@);
            }
        }
        let cs = to_json_chars(&self.entries);
        from_chars(&cs)
    }

    /// Insert-or-update by identifier: in memory the operation always
    /// succeeds; persisting the result is the caller's step.
    pub fn save(&mut self, entry: Entry) -> (r: Result<Entry, Error>)
        requires
            old(self).inv(),
            entry@.wf(),
        ensures
            final(self).inv(),
            final(self).entries() == spec_save(old(self).entries(), entry@),
            r matches Ok(e) && e@ == entry@,
    {
        let ghost es0 = views(old(self).entries@);
        let n = self.entries.len();
        let mut i: usize = 0;
        while i < n
            invariant
                0 <= i <= n,
                n == self.entries@.len(),
                self.entries@ == old(self).entries@,
                es0 == views(old(self).entries@),
                entries_wf(es0),
                entry@.wf(),
                forall|k: int| 0 <= k < i ==> (#[trigger] views(self.entries@)[k]).id != entry@.id,
            decreases n - i,
        {
            if str_eq(self.entries[i].id.as_str(), entry.id.as_str()) {
                proof {
                    lemma_idx_of(es0, entry@.id);
                    assert(views(self.entries@) == es0);
                    assert(es0[i as int] == self.entries@[i as int]@);
                    assert(es0[i as int].id == entry@.id);
                    assert(idx_of(es0, entry@.id) == i);
                    lemma_save_wf(es0, entry@);
                }
                let e2 = entry.clone();
                self.entries[i] = entry;
                proof {
                    assert(views(self.entries@) =~= es0.update(i as int, entry@));
                }
                return Ok(e2);
            }
            i = i + 1;
        }
        proof {
            lemma_idx_of(es0, entry@.id);
            assert(!contains_id(es0, entry@.id));
            lemma_save_wf(es0, entry@);
        }
        let e2 = entry.clone();
        self.entries.insert(0, entry);
        proof {
            assert(views(self.entries@) =~= seq![entry@] + es0);
        }
        Ok(e2)
    }

    /// Removes the entry with the given identifier from memory; absence is
    /// an error, and no file write is owed then.
    pub fn delete(&mut self, id: &str) -> (r: Result<(), Error>)
        requires
            old(self).inv(),
        ensures
            final(self).inv(),
            contains_id(old(self).entries(), id@) ==> (r matches Ok(p) && final(self).entries()
                == spec_delete(old(self).entries(), id@)),
            !contains_id(old(self).entries(), id@) ==> (r matches Err(err) && (
            err matches Error::NotFound(s) && s@ == id@) && final(self).entries() == old(
                self,
            ).entries()),
    {
        let ghost es0 = views(old(self).entries@);
        let n = self.entries.len();
        let mut i: usize = 0;
        while i < n
            invariant
                0 <= i <= n,
                n == self.entries@.len(),
                self.entries@ == old(self).entries@,
                es0 == views(old(self).entries@),
                entries_wf(es0),
                forall|k: int| 0 <= k < i ==> (#[trigger] views(self.entries@)[k]).id != id@,
            decreases n - i,
        {
            if str_eq(self.entries[i].id.as_str(), id) {
                proof {
                    lemma_idx_of(es0, id@);
                    assert(views(self.entries@) == es0);
                    assert(es0[i as int] == self.entries@[i as int]@);
                    assert(es0[i as int].id == id@);
                    assert(idx_of(es0, id@) == i);
                    lemma_delete_removes(es0, id@);
                }
                self.entries.remove(i);
                proof {
                    assert(views(self.entries@) =~= es0.remove(i as int));
                }
                return Ok(());
            }
            i = i + 1;
        }
        proof {
            lemma_idx_of(es0, id@);
            assert(!contains_id(es0, id@));
        }
        Err(Error::NotFound(id.to_owned()))
    }
}

impl EntryStorage for JsonEntryStorage {
    closed spec fn entries(&self) -> Seq<EntryV> {
        views(self.entries@)
    }

    closed spec fn inv(&self) -> bool {
        entries_wf(views(self.entries@))
    }

    proof fn lemma_inv(&self) {
    }

    fn get(&self, id: &str) -> (r: Result<Entry, Error>) {
        let n = self.entries.len();
        let mut i: usize = 0;
        while i < n
            invariant
                0 <= i <= n,
                n == self.entries@.len(),
                forall|k: int| 0 <= k < i ==> (#[trigger] views(self.entries@)[k]).id != id@,
            decreases n - i,
        {
            if str_eq(self.entries[i].id.as_str(), id) {
                proof {
                    lemma_idx_of(views(self.entries@), id@);
                    assert(views(self.entries@)[i as int].id == id@);
                    assert(idx_of(views(self.entries@), id@) == i);
                }
                return Ok(self.entries[i].clone());
            }
            i = i + 1;
        }
        proof {
            lemma_idx_of(views(self.entries@), id@);
            assert(!contains_id(views(self.entries@), id@));
        }
        Err(Error::NotFound(id.to_owned()))
    }

    fn get_all(&self) -> (r: Result<Vec<Entry>, Error>) {
        let n = self.entries.len();
        let mut out: Vec<Entry> = Vec::new();
        let mut i: usize = 0;
        while i < n
            invariant
                0 <= i <= n,
                n == self.entries@.len(),
                out@.len() == i,
                forall|k: int| 0 <= k < i ==> (#[trigger] out@[k])@ == views(self.entries@)[k],
            decreases n - i,
        {
            out.push(self.entries[i].clone());
            i = i + 1;
        }
        Ok(out)
    }

    fn save(&mut self, entry: Entry) -> (r: Result<Entry, Error>) {
        // Resolves to the inherent method, whose contract is stronger: in
        // memory, saving always succeeds.
        self.save(entry)
    }

    fn delete(&mut self, id: &str) -> (r: Result<(), Error>) {
        // Resolves to the inherent method, whose contract is stronger: only
        // absence fails here.
        self.delete(id)
    }
}

} // verus!
