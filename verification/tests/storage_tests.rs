use journal::date::DateTime;
use journal::entry::{Entry, EntryStorage, Error as EntryError};
use journal::json::entry::JsonEntryStorage;
use journal::plain::{Error as PlainError, PlainJournal};
use journal::Journal;

fn dt(year: u32, month: u32, day: u32, hour: u32, minute: u32, second: u32) -> DateTime {
    DateTime { year, month, day, hour, minute, second, offset_min: 60 }
}

#[test]
fn all() {
    let mut storage = JsonEntryStorage::new("").unwrap();

    // First, try to get entries.
    let entries = storage.get_all().unwrap();
    assert!(entries.is_empty());

    // And some individual one too.
    let err = storage.get("foo").unwrap_err();
    assert!(matches!(err, EntryError::NotFound(id) if id == "foo"));

    // Save some entries.
    let entry1 = Entry::new("some text", dt(2020, 12, 31, 11, 11, 11)).unwrap();
    let entry1 = storage.save(entry1).unwrap();

    let entry2 = Entry::new("another text", dt(2021, 1, 2, 9, 30, 0)).unwrap();
    let entry2 = storage.save(entry2).unwrap();

    // Our list of entries now must contain two.
    let entries = storage.get_all().unwrap();
    assert_eq!(2, entries.len());
    assert_eq!(vec![entry2.clone(), entry1.clone()], entries);

    // Update a record.
    let entry1 = Entry::new("some updated text", entry1.date).unwrap();
    let entry1 = storage.save(entry1).unwrap();

    // And we can easily get some record.
    let entry1_ = storage.get(&entry1.id).unwrap();
    assert_eq!(&entry1, &entry1_);

    // And delete it.
    storage.delete(&entry1.id).unwrap();
    let err = storage.get(&entry1.id).unwrap_err();
    assert!(matches!(err, EntryError::NotFound(id) if id == entry1.id));

    // But deleting a non-existent entry will return an error.
    let err = storage.delete(&entry1.id).unwrap_err();
    assert!(matches!(err, EntryError::NotFound(id) if id == entry1.id));
}

#[test]
fn scenario_insert_update_delete() {
    let mut storage = JsonEntryStorage::new("").unwrap();
    let e1 = storage
        .save(Entry::new("some text", dt(2020, 12, 31, 8, 0, 0)).unwrap())
        .unwrap();
    let e2 = storage
        .save(Entry::new("another text", dt(2021, 1, 2, 8, 0, 0)).unwrap())
        .unwrap();

    // Most-recent-insert-first.
    let entries = storage.get_all().unwrap();
    assert_eq!(vec![e2.clone(), e1.clone()], entries);

    // Updating keeps the position and merges.
    let e1b = storage
        .save(Entry::new("some updated text", dt(2020, 12, 31, 9, 30, 0)).unwrap())
        .unwrap();
    let entries = storage.get_all().unwrap();
    assert_eq!(2, entries.len());
    assert_eq!(e2, entries[0]);
    assert_eq!(e1b, entries[1]);
    assert_eq!("some updated text", &entries[1].text);
    assert_eq!(&e1.id, &e1b.id);

    // Delete, then the id is gone.
    storage.delete(&e1.id).unwrap();
    let err = storage.get(&e1.id).unwrap_err();
    assert!(matches!(err, EntryError::NotFound(id) if id == e1.id));
}

#[test]
fn serialized_form_is_exact() {
    let mut storage = JsonEntryStorage::new("").unwrap();
    let date = DateTime { year: 2020, month: 12, day: 31, hour: 11, minute: 11, second: 11, offset_min: 60 };
    storage.save(Entry::new("hello", date).unwrap()).unwrap();
    assert_eq!(
        "[{\"id\":\"31.12.20\",\"text\":\"hello\",\"date\":\"2020-12-31T11:11:11+01:00\"}]",
        &storage.to_json()
    );
}

#[test]
fn persistence_roundtrip() {
    let mut storage = JsonEntryStorage::new("").unwrap();
    storage
        .save(Entry::new("say \"hi\" \\ twice\nplease\tok", dt(2020, 12, 31, 23, 59, 59)).unwrap())
        .unwrap();
    storage
        .save(Entry::new("another text", dt(2021, 1, 2, 0, 0, 1)).unwrap())
        .unwrap();

    let file = storage.to_json();
    let reopened = JsonEntryStorage::new(&file).unwrap();
    assert_eq!(storage.get_all().unwrap(), reopened.get_all().unwrap());
}

#[test]
fn negative_offset_roundtrip() {
    let date = DateTime { year: 1999, month: 6, day: 7, hour: 1, minute: 2, second: 3, offset_min: -330 };
    let mut storage = JsonEntryStorage::new("").unwrap();
    storage.save(Entry::new("west of utc", date).unwrap()).unwrap();
    let file = storage.to_json();
    assert!(file.contains("1999-06-07T01:02:03-05:30"));
    let reopened = JsonEntryStorage::new(&file).unwrap();
    assert_eq!(storage.get_all().unwrap(), reopened.get_all().unwrap());
}

#[test]
fn blank_file_is_empty_storage() {
    for content in ["", "  ", "\n\t \r\n"] {
        let storage = JsonEntryStorage::new(content).unwrap();
        assert!(storage.get_all().unwrap().is_empty());
    }
}

#[test]
fn malformed_file_is_json_error() {
    for content in ["not json", "[", "{}", "[{\"id\":\"x\"}]", "[]trailing"] {
        let err = JsonEntryStorage::new(content).unwrap_err();
        assert!(matches!(err, EntryError::JsonError));
    }
}

#[test]
fn inconsistent_id_is_json_error() {
    // The id field must be exactly the formatted day portion of the date.
    let content = "[{\"id\":\"01.01.21\",\"text\":\"hello\",\"date\":\"2020-12-31T11:11:11+01:00\"}]";
    let err = JsonEntryStorage::new(content).unwrap_err();
    assert!(matches!(err, EntryError::JsonError));
}

#[test]
fn duplicate_id_is_json_error() {
    let one = "{\"id\":\"31.12.20\",\"text\":\"a\",\"date\":\"2020-12-31T11:11:11+01:00\"}";
    let content = format!("[{},{}]", one, one);
    let err = JsonEntryStorage::new(&content).unwrap_err();
    assert!(matches!(err, EntryError::JsonError));
}

#[test]
fn journal_facade_forwards() {
    let storage = JsonEntryStorage::new("").unwrap();
    let journal = Journal::new(storage);
    let Journal::Plain(mut plain) = journal;

    let saved = plain
        .save_entry(Entry::new("facade text", dt(2022, 3, 4, 5, 6, 7)).unwrap())
        .unwrap();
    assert_eq!("04.03.22", &saved.id);

    let got = plain.get_entry(&saved.id).unwrap();
    assert_eq!(saved, got);

    let listed = plain.get_entries().unwrap();
    assert_eq!(vec![saved.clone()], listed);

    plain.delete_entry(&saved.id).unwrap();
    let err = plain.get_entry(&saved.id).unwrap_err();
    assert!(matches!(err, PlainError::EntryError(EntryError::NotFound(id)) if id == saved.id));
}

#[test]
fn facade_over_fresh_storage() {
    let storage = JsonEntryStorage::new("").unwrap();
    let mut plain = PlainJournal::new(storage);
    assert!(plain.get_entries().unwrap().is_empty());
    let err = plain.delete_entry("31.12.20").unwrap_err();
    assert!(matches!(err, PlainError::EntryError(EntryError::NotFound(id)) if id == "31.12.20"));
}
