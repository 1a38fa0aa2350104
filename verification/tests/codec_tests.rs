use apptbook::codec::decode;
use apptbook::codec::encode;
use apptbook::errors::PersistenceError;
use apptbook::store::Appointment;
use apptbook::store::AppointmentStore;
use apptbook::temporal::combine;
use apptbook::temporal::parse_date;
use apptbook::temporal::parse_time;
use apptbook::temporal::Instant;

fn instant(date: &str, time: &str) -> Instant {
    combine(parse_date(date).unwrap(), parse_time(time).unwrap())
}

fn appt(description: &str, start: Instant, end: Instant) -> Appointment {
    Appointment { description: description.to_string(), start, end }
}

#[test]
fn serialize_deserialize_apptbook() {
    let mut apptbook = AppointmentStore::new();
    apptbook.add(
        "Tom".to_string(),
        appt("Have lunch with Lisa", instant("02/02/2020", "11:30"), instant("02/02/2020", "12:15")),
    );

    let serialized = encode(&apptbook);
    let deserialized = decode(serialized.as_str()).unwrap();

    let toms_vec = deserialized.list("Tom").unwrap();

    assert_eq!(toms_vec[0].description, "Have lunch with Lisa");
    assert_eq!(toms_vec[0].start, instant("02/02/2020", "11:30"));
    assert_eq!(toms_vec[0].end, instant("02/02/2020", "12:15"));
}

#[test]
fn encode_produces_canonical_text() {
    let mut book = AppointmentStore::new();
    book.add(
        "Tom".to_string(),
        appt("Have lunch with Lisa", instant("02/02/2020", "11:30"), instant("02/02/2020", "12:15")),
    );
    let expected = "{\"Tom\":[{\"description\":\"Have lunch with Lisa\",\"start_date_time\":\"2020-02-02T11:30\",\"end_date_time\":\"2020-02-02T12:15\"}]}";
    assert_eq!(encode(&book), expected);
}

#[test]
fn empty_input_means_empty_store() {
    let book = decode("").unwrap();
    assert_eq!(book.owner_count(), 0);
    let brace = decode("{}").unwrap();
    assert_eq!(brace.owner_count(), 0);
    assert_eq!(encode(&AppointmentStore::new()), "{}");
}

#[test]
fn round_trip_many_owners_and_escapes() {
    let mut book = AppointmentStore::new();
    book.add(
        "He said \"hi\"".to_string(),
        appt(
            "Bring a \\ backslash and a \"quote\"",
            instant("01/01/2020", "00:00"),
            instant("12/31/2020", "23:59"),
        ),
    );
    book.add(
        "Erik".to_string(),
        appt("Eat Candy", instant("03/18/2020", "12:30"), instant("03/18/2020", "12:40")),
    );
    book.add(
        "Erik".to_string(),
        appt("Dentist appointment", instant("03/11/2020", "07:30"), instant("03/11/2020", "08:30")),
    );

    let text = encode(&book);
    let back = decode(text.as_str()).unwrap();

    assert_eq!(back.owner_count(), 2);
    assert_eq!(back.owners(), book.owners());
    let eriks = back.list("Erik").unwrap();
    assert_eq!(eriks.len(), 2);
    assert_eq!(eriks[0].description, "Dentist appointment");
    assert_eq!(eriks[1].description, "Eat Candy");
    let quoted = back.list("He said \"hi\"").unwrap();
    assert_eq!(quoted[0].description, "Bring a \\ backslash and a \"quote\"");
    assert_eq!(encode(&back), text);
}

#[test]
fn malformed_blobs_are_corrupt() {
    assert_eq!(decode("garbage").unwrap_err(), PersistenceError::Corrupt);
    assert_eq!(decode("{").unwrap_err(), PersistenceError::Corrupt);
    assert_eq!(decode("{\"Tom\":[]}").unwrap_err(), PersistenceError::Corrupt);
    assert_eq!(decode("{\"Tom\":}").unwrap_err(), PersistenceError::Corrupt);
    assert_eq!(decode("[]").unwrap_err(), PersistenceError::Corrupt);
    let good = "{\"Tom\":[{\"description\":\"Lunch\",\"start_date_time\":\"2020-02-02T11:30\",\"end_date_time\":\"2020-02-02T12:15\"}]}";
    assert!(decode(good).is_ok());
    let trailing = format!("{} ", good);
    assert_eq!(decode(trailing.as_str()).unwrap_err(), PersistenceError::Corrupt);
}

#[test]
fn blobs_breaking_invariants_are_corrupt() {
    // end before start
    let bad_range = "{\"Tom\":[{\"description\":\"Lunch\",\"start_date_time\":\"2020-02-02T12:15\",\"end_date_time\":\"2020-02-02T11:30\"}]}";
    assert_eq!(decode(bad_range).unwrap_err(), PersistenceError::Corrupt);
    // not a real calendar date
    let bad_date = "{\"Tom\":[{\"description\":\"Lunch\",\"start_date_time\":\"2020-02-30T11:30\",\"end_date_time\":\"2020-03-01T12:15\"}]}";
    assert_eq!(decode(bad_date).unwrap_err(), PersistenceError::Corrupt);
    // repeated owner
    let dup_owner = "{\"Tom\":[{\"description\":\"A\",\"start_date_time\":\"2020-02-02T11:30\",\"end_date_time\":\"2020-02-02T12:15\"}],\"Tom\":[{\"description\":\"B\",\"start_date_time\":\"2020-02-02T11:30\",\"end_date_time\":\"2020-02-02T12:15\"}]}";
    assert_eq!(decode(dup_owner).unwrap_err(), PersistenceError::Corrupt);
    // records out of canonical order
    let unsorted = "{\"Tom\":[{\"description\":\"B\",\"start_date_time\":\"2020-02-03T11:30\",\"end_date_time\":\"2020-02-03T12:15\"},{\"description\":\"A\",\"start_date_time\":\"2020-02-02T11:30\",\"end_date_time\":\"2020-02-02T12:15\"}]}";
    assert_eq!(decode(unsorted).unwrap_err(), PersistenceError::Corrupt);
}
