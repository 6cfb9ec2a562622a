//! The entry model: the entry value type, its validation rule, and the
//! abstract storage capability that any backend implements.

use vstd::prelude::*;

use crate::chars::{
    digit_char, from_chars, is_ws, lemma_trim_props, spec_digit, spec_trim, str_eq, to_chars,
    trim_chars,
};
use crate::date::DateTime;

verus! {

/// An entry in a journal.
#[derive(Debug)]
pub struct Entry {
    /// The unique key, derived from the day portion of `date`.
    pub id: String,
    /// The entry text: non-empty and trimmed.
    pub text: String,
    /// When the entry was written, at full precision.
    pub date: DateTime,
}

/// The mathematical value of an entry.
pub ghost struct EntryV {
    pub id: Seq<char>,
    pub text: Seq<char>,
    pub date: DateTime,
}

impl View for Entry {
    type V = EntryV;

    open spec fn view(&self) -> EntryV {
        EntryV { id: self.id@, text: self.text@, date: self.date }
    }
}

/// Valid entry text: non-empty and carrying no whitespace at either end.
pub open spec fn valid_text(t: Seq<char>) -> bool {
    t.len() > 0 && !is_ws(t[0]) && !is_ws(t[t.len() - 1])
}

/// The identifier derived from a timestamp: the day, month and two-digit
/// year, each zero-padded, separated by dots.
pub open spec fn spec_format_id(d: DateTime) -> Seq<char> {
    let dd = d.day as int;
    let mm = d.month as int;
    let yy = d.year as int;
    seq![
        spec_digit(dd / 10),
        spec_digit(dd % 10),
        '.',
        spec_digit(mm / 10),
        spec_digit(mm % 10),
        '.',
        spec_digit((yy % 100) / 10),
        spec_digit(yy % 10),
    ]
}

impl EntryV {
    /// A well-formed entry: a well-formed date, valid text, and an identifier
    /// that is exactly the formatted day portion of the date.
    pub open spec fn wf(&self) -> bool {
        self.date.wf() && valid_text(self.text) && self.id == spec_format_id(self.date)
    }
}

/// The identifier for a timestamp, as characters.
pub fn format_id_chars(d: &DateTime) -> (r: Vec<char>)
    requires
        d.wf(),
    ensures
        r@ == spec_format_id(*d),
{
    let mut r: Vec<char> = Vec::new();
    r.push(digit_char(d.day / 10));
    r.push(digit_char(d.day % 10));
    r.push('.');
    r.push(digit_char(d.month / 10));
    r.push(digit_char(d.month % 10));
    r.push('.');
    r.push(digit_char((d.year % 100) / 10));
    r.push(digit_char(d.year % 10));
    assert(r@ =~= spec_format_id(*d));
    r
}

/// The identifier for a timestamp.
pub fn format_id(d: &DateTime) -> (r: String)
    requires
        d.wf(),
    ensures
        r@ == spec_format_id(*d),
{
    let cs = format_id_chars(d);
    from_chars(&cs)
}

/// All possible entry-related errors.
#[derive(Debug)]
pub enum Error {
    /// The text of an entry trimmed to nothing.
    EmptyText,
    /// No entry with the given identifier is stored.
    NotFound(String),
    /// The file holding the entries could not be read or written; the payload
    /// describes the failure.
    IOError(String),
    /// The file holding the entries did not parse as the entry collection
    /// format.
    JsonError,
}

impl Entry {
    /// Creates a new record with the given text and date: the text is
    /// trimmed, and rejected if nothing remains.
    pub fn new(text: &str, date: DateTime) -> (r: Result<Self, Error>)
        requires
            date.wf(),
        ensures
            r matches Ok(e) ==> spec_trim(text@).len() > 0 && e@.wf() && e@.id == spec_format_id(
                date,
            ) && e@.text == spec_trim(text@) && e@.date == date,
            r matches Err(err) ==> spec_trim(text@).len() == 0 && (err matches Error::EmptyText),
    {
        let cv = to_chars(text);
        let t = trim_chars(&cv);
        if t.len() == 0 {
            return Err(Error::EmptyText);
        }
        proof {
            lemma_trim_props(text@);
        }
        Ok(Entry { id: format_id(&date), text: from_chars(&t), date })
    }
}

impl Clone for Entry {
    fn clone(&self) -> (r: Self)
        ensures
            r == *self,
    {
        Entry { id: self.id.clone(), text: self.text.clone(), date: self.date }
    }
}

impl PartialEq for Entry {
    fn eq(&self, other: &Self) -> (r: bool) {
        str_eq(self.id.as_str(), other.id.as_str()) && str_eq(
            self.text.as_str(),
            other.text.as_str(),
        ) && self.date == other.date
    }
}

impl vstd::std_specs::cmp::PartialEqSpecImpl for Entry {
    open spec fn obeys_eq_spec() -> bool {
        true
    }

    open spec fn eq_spec(&self, other: &Entry) -> bool {
        self.id@ == other.id@ && self.text@ == other.text@ && self.date == other.date
    }
}

/// The mathematical values of a sequence of entries.
pub open spec fn views(s: Seq<Entry>) -> Seq<EntryV> {
    s.map_values(|e: Entry| e@)
}

/// The position of the first entry with the given identifier, or the length
/// of the sequence if none carries it.
pub open spec fn idx_of(es: Seq<EntryV>, id: Seq<char>) -> int
    decreases es.len(),
{
    if es.len() == 0 {
        0
    } else if es[0].id == id {
        0
    } else {
        1 + idx_of(es.skip(1), id)
    }
}

/// Whether some entry carries the given identifier.
pub open spec fn contains_id(es: Seq<EntryV>, id: Seq<char>) -> bool {
    idx_of(es, id) < es.len()
}

/// What saving an entry does to the collection: replace in place when the
/// identifier is present, insert at the front when it is not.
pub open spec fn spec_save(es: Seq<EntryV>, e: EntryV) -> Seq<EntryV> {
    if contains_id(es, e.id) {
        es.update(idx_of(es, e.id), e)
    } else {
        seq![e] + es
    }
}

/// What deleting an identifier does to the collection: remove its entry when
/// present, change nothing when absent.
pub open spec fn spec_delete(es: Seq<EntryV>, id: Seq<char>) -> Seq<EntryV> {
    if contains_id(es, id) {
        es.remove(idx_of(es, id))
    } else {
        es
    }
}

/// At most one entry per identifier.
pub open spec fn unique_ids(es: Seq<EntryV>) -> bool {
    forall|i: int, j: int| 0 <= i < j < es.len() ==> es[i].id != es[j].id
}

/// A well-formed collection: identifiers are unique and every entry is
/// well-formed.
pub open spec fn entries_wf(es: Seq<EntryV>) -> bool {
    unique_ids(es) && (forall|i: int| 0 <= i < es.len() ==> (#[trigger] es[i]).wf())
}

pub proof fn lemma_idx_of(es: Seq<EntryV>, id: Seq<char>)
    ensures
        0 <= idx_of(es, id) <= es.len(),
        idx_of(es, id) < es.len() ==> es[idx_of(es, id)].id == id,
        forall|k: int| 0 <= k < idx_of(es, id) ==> (#[trigger] es[k]).id != id,
        (exists|k: int| 0 <= k < es.len() && (#[trigger] es[k]).id == id) ==> idx_of(es, id)
            < es.len(),
    decreases es.len(),
{
    if es.len() > 0 && es[0].id != id {
        lemma_idx_of(es.skip(1), id);
        assert forall|k: int| 0 <= k < idx_of(es, id) implies (#[trigger] es[k]).id != id by {
            if k > 0 {
                assert(es.skip(1)[k - 1] == es[k]);
            }
        }
        if exists|k: int| 0 <= k < es.len() && (#[trigger] es[k]).id == id {
            let k = choose|k: int| 0 <= k < es.len() && (#[trigger] es[k]).id == id;
            assert(es.skip(1)[k - 1].id == id);
        }
    }
}

/// Where the identifier of a just-saved entry stands: at its old position
/// when it was present, at the front when it was not.
pub proof fn lemma_save_idx(es: Seq<EntryV>, e: EntryV)
    ensures
        idx_of(spec_save(es, e), e.id) == (if contains_id(es, e.id) {
            idx_of(es, e.id)
        } else {
            0
        }),
{
    lemma_idx_of(es, e.id);
    let r = spec_save(es, e);
    lemma_idx_of(r, e.id);
    if contains_id(es, e.id) {
        let i = idx_of(es, e.id);
        let j = idx_of(r, e.id);
        assert(r[i].id == e.id);
        assert(j < r.len());
        if j < i {
            assert(r[j] == es[j]);
            assert(es[j].id != e.id);
            assert(false);
        }
        if j > i {
            assert(r[i].id != e.id);
            assert(false);
        }
    } else {
        assert(r[0] == e);
        assert(idx_of(r, e.id) < r.len());
    }
}

/// Saving a well-formed entry keeps the collection well-formed.
pub proof fn lemma_save_wf(es: Seq<EntryV>, e: EntryV)
    requires
        entries_wf(es),
        e.wf(),
    ensures
        entries_wf(spec_save(es, e)),
{
    lemma_idx_of(es, e.id);
    let r = spec_save(es, e);
    if contains_id(es, e.id) {
        let i = idx_of(es, e.id);
        assert(es[i].id == e.id);
        assert(forall|k: int| 0 <= k < r.len() ==> (#[trigger] r[k]).id == es[k].id);
        assert(forall|a: int, b: int| 0 <= a < b < r.len() ==> r[a].id != r[b].id);
    } else {
        assert forall|a: int, b: int| 0 <= a < b < r.len() implies r[a].id != r[b].id by {
            if a == 0 {
                assert(r[b] == es[b - 1]);
                if es[b - 1].id == e.id {
                    lemma_idx_of_finds(es, e.id, b - 1);
                }
            } else {
                assert(r[a] == es[a - 1]);
                assert(r[b] == es[b - 1]);
            }
        }
    }
    assert forall|k: int| 0 <= k < r.len() implies (#[trigger] r[k]).wf() by {
        if contains_id(es, e.id) {
            if k != idx_of(es, e.id) {
                assert(r[k] == es[k]);
            }
        } else {
            if k > 0 {
                assert(r[k] == es[k - 1]);
            }
        }
    }
}

/// If some position carries the identifier, the identifier is found.
pub proof fn lemma_idx_of_finds(es: Seq<EntryV>, id: Seq<char>, k: int)
    requires
        0 <= k < es.len(),
        es[k].id == id,
    ensures
        contains_id(es, id),
{
    lemma_idx_of(es, id);
}

/// Law: after saving an entry, looking its identifier up finds exactly the
/// entry that was saved — a save followed by a get returns what save
/// returned.
pub proof fn lemma_save_then_get(es: Seq<EntryV>, e: EntryV)
    requires
        entries_wf(es),
        e.wf(),
    ensures
        contains_id(spec_save(es, e), e.id),
        spec_save(es, e)[idx_of(spec_save(es, e), e.id)] == e,
{
    lemma_idx_of(es, e.id);
    lemma_save_idx(es, e);
    let r = spec_save(es, e);
    if contains_id(es, e.id) {
        assert(r[idx_of(es, e.id)] == e);
        lemma_idx_of_finds(r, e.id, idx_of(es, e.id));
    } else {
        assert(r[0] == e);
        lemma_idx_of_finds(r, e.id, 0);
    }
}

/// Law: saving an entry whose identifier is already present merges — the
/// collection keeps its length, the entry keeps its original position, every
/// other entry is untouched, and no duplicate appears.
pub proof fn lemma_save_merges(es: Seq<EntryV>, e: EntryV)
    requires
        entries_wf(es),
        e.wf(),
        contains_id(es, e.id),
    ensures
        spec_save(es, e).len() == es.len(),
        idx_of(spec_save(es, e), e.id) == idx_of(es, e.id),
        forall|k: int|
            0 <= k < es.len() && k != idx_of(es, e.id) ==> #[trigger] spec_save(es, e)[k]
                == es[k],
        entries_wf(spec_save(es, e)),
{
    lemma_idx_of(es, e.id);
    lemma_save_idx(es, e);
    lemma_save_wf(es, e);
}

/// Law: nothing is contained in an empty collection, so any get on freshly
/// opened empty storage fails and a listing of it is empty.
pub proof fn lemma_empty_storage(id: Seq<char>)
    ensures
        !contains_id(Seq::<EntryV>::empty(), id),
        Seq::<EntryV>::empty().len() == 0,
{
}

/// Law: deleting a present identifier removes exactly its entry — the
/// identifier is no longer found, the collection shrinks by one, it stays
/// well-formed, and deleting the identifier again changes nothing.
pub proof fn lemma_delete_removes(es: Seq<EntryV>, id: Seq<char>)
    requires
        entries_wf(es),
        contains_id(es, id),
    ensures
        !contains_id(spec_delete(es, id), id),
        spec_delete(es, id).len() == es.len() - 1,
        entries_wf(spec_delete(es, id)),
        spec_delete(spec_delete(es, id), id) == spec_delete(es, id),
{
    lemma_idx_of(es, id);
    let i = idx_of(es, id);
    let r = es.remove(i);
    assert(forall|k: int| 0 <= k < i ==> #[trigger] r[k] == es[k]);
    assert(forall|k: int| i <= k < r.len() ==> #[trigger] r[k] == es[k + 1]);
    if contains_id(r, id) {
        lemma_idx_of(r, id);
        let k = idx_of(r, id);
        if k < i {
            assert(es[k].id != id);
            assert(false);
        } else {
            assert(es[k + 1].id == id);
            assert(es[i].id == id);
            assert(false);
        }
    }
    assert forall|a: int, b: int| 0 <= a < b < r.len() implies r[a].id != r[b].id by {
        let a0 = if a < i { a } else { a + 1 };
        let b0 = if b < i { b } else { b + 1 };
        assert(r[a] == es[a0]);
        assert(r[b] == es[b0]);
    }
    assert forall|k: int| 0 <= k < r.len() implies (#[trigger] r[k]).wf() by {
        let k0 = if k < i { k } else { k + 1 };
        assert(r[k] == es[k0]);
    }
}

/// A storage for entries.
pub trait EntryStorage {
    /// The stored collection, in its stored order.
    spec fn entries(&self) -> Seq<EntryV>;

    /// The backend's invariant.
    spec fn inv(&self) -> bool;

    /// The invariant guarantees a well-formed collection.
    proof fn lemma_inv(&self)
        requires
            self.inv(),
        ensures
            entries_wf(self.entries()),
    ;

    /// Returns a copy of the entry with the given identifier.
    fn get(&self, id: &str) -> (r: Result<Entry, Error>)
        requires
            self.inv(),
        ensures
            match r {
                Ok(e) => contains_id(self.entries(), id@) && e@ == self.entries()[idx_of(
                    self.entries(),
                    id@,
                )],
                Err(err) => !contains_id(self.entries(), id@) && (err matches Error::NotFound(s)
                    && s@ == id@),
            },
    ;

    /// Returns a copy of the full collection in its stored order.
    fn get_all(&self) -> (r: Result<Vec<Entry>, Error>)
        requires
            self.inv(),
        ensures
            r matches Ok(v) && v@.len() == self.entries().len() && (forall|i: int|
                0 <= i < v@.len() ==> (#[trigger] v@[i])@ == self.entries()[i]),
    ;

    /// Insert-or-update by identifier; the collection is merged whether or
    /// not persisting it afterwards succeeds.
    fn save(&mut self, entry: Entry) -> (r: Result<Entry, Error>)
        requires
            old(self).inv(),
            entry@.wf(),
        ensures
            final(self).inv(),
            final(self).entries() == spec_save(old(self).entries(), entry@),
            match r {
                Ok(e) => e@ == entry@,
                Err(err) => err matches Error::IOError(_) || err matches Error::JsonError,
            },
    ;

    /// Removes the entry with the given identifier; absence is an error and
    /// leaves the collection untouched.
    fn delete(&mut self, id: &str) -> (r: Result<(), Error>)
        requires
            old(self).inv(),
        ensures
            final(self).inv(),
            match r {
                Ok(_) => contains_id(old(self).entries(), id@) && final(self).entries()
                    == spec_delete(old(self).entries(), id@),
                Err(err) => (err matches Error::NotFound(s) && s@ == id@ && !contains_id(
                    old(self).entries(),
                    id@,
                ) && final(self).entries() == old(self).entries()) || (err matches Error::IOError(
                    _,
                ) && contains_id(old(self).entries(), id@) && final(self).entries() == spec_delete(
                    old(self).entries(),
                    id@,
                )),
            },
    ;
}

} // verus!
