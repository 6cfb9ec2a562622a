use journal::date::DateTime;
use journal::entry::{Entry, Error};

fn dt(year: u32, month: u32, day: u32, hour: u32, minute: u32, second: u32) -> DateTime {
    DateTime { year, month, day, hour, minute, second, offset_min: 0 }
}

#[test]
fn create_entry() {
    let date = dt(2020, 12, 31, 11, 11, 11);

    let text = "     this is some bad \nformatted text    ";
    let entry = Entry::new(text, date).expect("valid args");
    assert_eq!("31.12.20", &entry.id);
    assert_eq!("this is some bad \nformatted text", &entry.text);
    assert_eq!(date, entry.date);

    let text = "     ";
    let err = Entry::new(text, date).expect_err("invalid args");
    assert!(matches!(err, Error::EmptyText));
}

#[test]
fn id_pads_single_digits() {
    let date = dt(2021, 1, 2, 0, 0, 0);
    let entry = Entry::new("x", date).expect("valid args");
    assert_eq!("02.01.21", &entry.id);
}

#[test]
fn empty_text_variants() {
    let date = dt(2020, 12, 31, 11, 11, 11);
    for text in ["", " ", "\t\n \r ", "\u{a0}\u{3000}"] {
        let err = Entry::new(text, date).expect_err("blank text");
        assert!(matches!(err, Error::EmptyText));
    }
}

#[test]
fn date_validity() {
    assert!(dt(2020, 2, 29, 0, 0, 0).valid());
    assert!(!dt(2021, 2, 29, 0, 0, 0).valid());
    assert!(!dt(2021, 4, 31, 0, 0, 0).valid());
    assert!(dt(2000, 2, 29, 0, 0, 0).valid());
    assert!(!dt(1900, 2, 29, 0, 0, 0).valid());
    assert!(!dt(2021, 13, 1, 0, 0, 0).valid());
    assert!(!dt(2021, 0, 1, 0, 0, 0).valid());
    assert!(!DateTime { year: 2021, month: 5, day: 1, hour: 24, minute: 0, second: 0, offset_min: 0 }.valid());
    assert!(!DateTime { year: 2021, month: 5, day: 1, hour: 0, minute: 0, second: 0, offset_min: 1440 }.valid());
    assert!(DateTime { year: 2021, month: 5, day: 1, hour: 0, minute: 0, second: 0, offset_min: -330 }.valid());
}
