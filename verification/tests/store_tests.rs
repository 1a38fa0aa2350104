use apptbook::errors::StoreError;
use apptbook::store::appt_before;
use apptbook::store::Appointment;
use apptbook::store::AppointmentStore;
use apptbook::temporal::combine;
use apptbook::temporal::parse_date;
use apptbook::temporal::parse_time;
use apptbook::temporal::Instant;
use std::cmp::Ordering;

fn instant(date: &str, time: &str) -> Instant {
    combine(parse_date(date).unwrap(), parse_time(time).unwrap())
}

fn appt(description: &str, start: Instant, end: Instant) -> Appointment {
    Appointment { description: description.to_string(), start, end }
}

fn canonical(a: &Appointment, b: &Appointment) -> Ordering {
    if appt_before(a, b) {
        Ordering::Less
    } else if appt_before(b, a) {
        Ordering::Greater
    } else {
        Ordering::Equal
    }
}

#[test]
fn sort_by_start_date_time() {
    let sdt1 = instant("02/15/2020", "14:30");
    let edt1 = instant("02/15/2020", "15:00");
    let sdt2 = instant("02/16/2020", "08:15");
    let edt2 = instant("02/16/2020", "09:00");
    let sdt3 = instant("02/14/2020", "19:30");
    let edt3 = instant("02/14/2020", "19:45");

    let mut v: Vec<Appointment> = Vec::new();
    v.push(appt("Do homework", sdt1, edt1));
    v.push(appt("Do more homework", sdt2, edt2));
    v.push(appt("Do even more homework", sdt3, edt3));

    v.sort_by(canonical);

    assert_eq!(v[0].description, "Do even more homework");
    assert_eq!(v[1].description, "Do homework");
    assert_eq!(v[2].description, "Do more homework");
}

#[test]
fn sort_by_end_date_time() {
    let sdt1 = instant("02/07/2020", "08:30");
    let edt1 = instant("02/16/2020", "15:00");
    let sdt2 = instant("02/07/2020", "08:30");
    let edt2 = instant("02/15/2020", "15:00");
    let sdt3 = instant("02/07/2020", "08:30");
    let edt3 = instant("02/17/2020", "15:00");

    let mut v: Vec<Appointment> = Vec::new();
    v.push(appt("Do homework", sdt1, edt1));
    v.push(appt("Do more homework", sdt2, edt2));
    v.push(appt("Do even more homework", sdt3, edt3));

    v.sort_by(canonical);

    assert_eq!(v[0].description, "Do more homework");
    assert_eq!(v[1].description, "Do homework");
    assert_eq!(v[2].description, "Do even more homework");
}

#[test]
fn sort_by_description() {
    let start = instant("02/25/2020", "06:00");
    let end = instant("02/25/2020", "07:00");

    let mut v: Vec<Appointment> = Vec::new();
    v.push(appt("Do homework", start, end));
    v.push(appt("Do more homework", start, end));
    v.push(appt("Do even more homework", start, end));

    v.sort_by(canonical);

    assert_eq!(v[0].description, "Do even more homework");
    assert_eq!(v[1].description, "Do homework");
    assert_eq!(v[2].description, "Do more homework");
}

#[test]
fn remove_owner_from_apptbook() {
    let mut book = AppointmentStore::new();

    let appt1 = appt(
        "Dentist appointment",
        instant("03/11/2020", "07:30"),
        instant("03/11/2020", "08:30"),
    );
    let appt2 = appt("Eat Candy", instant("03/18/2020", "12:30"), instant("03/18/2020", "12:40"));

    book.add("Billy".to_string(), appt1);
    book.add("Erik".to_string(), appt2);

    assert_eq!(book.owner_count(), 2);
    book.delete_all("Billy").unwrap();
    assert_eq!(book.owner_count(), 1);
    book.delete_all("Erik").unwrap();
    assert_eq!(book.owner_count(), 0);
}

#[test]
fn remove_appt_from_apptbook_vec() {
    let mut book = AppointmentStore::new();

    let appt1 = appt(
        "Have lunch with Lisa",
        instant("02/02/2020", "11:30"),
        instant("02/02/2020", "12:15"),
    );
    let appt2 = appt(
        "Eat lunch alone",
        instant("02/17/2020", "11:00"),
        instant("02/17/2020", "11:30"),
    );

    book.add("Tom".to_string(), appt1);
    book.add("Tom".to_string(), appt2);

    assert_eq!(book.list("Tom").unwrap().len(), 2);
    book.delete_one("Tom", 1).unwrap();
    let toms = book.list("Tom").unwrap();
    assert_eq!(toms.len(), 1);
    assert_eq!(toms[0].description, "Eat lunch alone");
}

#[test]
fn store_keeps_canonical_order() {
    let mut book = AppointmentStore::new();
    let start = instant("02/25/2020", "06:00");
    let end = instant("02/25/2020", "07:00");

    book.add("Ann".to_string(), appt("Do homework", start, end));
    book.add("Ann".to_string(), appt("Do more homework", start, end));
    book.add("Ann".to_string(), appt("Do even more homework", start, end));

    let listed = book.list("Ann").unwrap();
    assert_eq!(listed[0].description, "Do even more homework");
    assert_eq!(listed[1].description, "Do homework");
    assert_eq!(listed[2].description, "Do more homework");
}

#[test]
fn deleting_sole_appointment_removes_owner() {
    let mut book = AppointmentStore::new();
    book.add(
        "Tom".to_string(),
        appt("Have lunch with Lisa", instant("02/02/2020", "11:30"), instant("02/02/2020", "12:15")),
    );
    book.delete_one("Tom", 1).unwrap();
    assert_eq!(book.list("Tom").unwrap_err(), StoreError::NotFound);
    assert_eq!(book.owner_count(), 0);
}

#[test]
fn delete_one_out_of_range_leaves_store_alone() {
    let mut book = AppointmentStore::new();
    book.add(
        "Tom".to_string(),
        appt("Have lunch with Lisa", instant("02/02/2020", "11:30"), instant("02/02/2020", "12:15")),
    );
    assert_eq!(book.delete_one("Tom", 0).unwrap_err(), StoreError::IndexOutOfRange);
    assert_eq!(book.delete_one("Tom", 2).unwrap_err(), StoreError::IndexOutOfRange);
    let toms = book.list("Tom").unwrap();
    assert_eq!(toms.len(), 1);
    assert_eq!(toms[0].description, "Have lunch with Lisa");
}

#[test]
fn lookups_on_absent_owner_fail() {
    let mut book = AppointmentStore::new();
    assert_eq!(book.list("Nobody").unwrap_err(), StoreError::NotFound);
    assert_eq!(book.delete_all("Nobody").unwrap_err(), StoreError::NotFound);
    assert_eq!(book.delete_one("Nobody", 1).unwrap_err(), StoreError::NotFound);
}

#[test]
fn owners_listed_in_stable_insertion_order() {
    let mut book = AppointmentStore::new();
    let start = instant("01/05/2021", "08:00");
    let end = instant("01/05/2021", "09:00");
    book.add("Zoe".to_string(), appt("Standup", start, end));
    book.add("Abe".to_string(), appt("Standup", start, end));
    assert_eq!(book.owners(), vec!["Zoe".to_string(), "Abe".to_string()]);
    book.add("Zoe".to_string(), appt("Review", start, end));
    assert_eq!(book.owners(), vec!["Zoe".to_string(), "Abe".to_string()]);
}

#[test]
fn end_to_end_listing_for_tom() {
    let mut book = AppointmentStore::new();
    book.add(
        "Tom".to_string(),
        appt("Have lunch with Lisa", instant("02/02/2020", "11:30"), instant("02/02/2020", "12:15")),
    );

    let toms = book.list("Tom").unwrap();
    assert_eq!(toms.len(), 1);
    let only = &toms[0];
    assert_eq!(only.description, "Have lunch with Lisa");
    assert_eq!(only.duration(), 45);
    assert_eq!(only.start_display(), "02/02/2020 11:30");
    assert_eq!(only.end_display(), "12:15");
}

#[test]
fn cross_day_end_display_shows_full_date() {
    let a = appt("Night shift", instant("02/17/2020", "23:00"), instant("02/18/2020", "00:45"));
    assert_eq!(a.end_display(), "02/18/2020 00:45");
    assert_eq!(a.duration(), 105);
}

#[test]
fn duplicate_copies_every_field() {
    let a = appt("Checkup", instant("03/11/2020", "07:30"), instant("03/11/2020", "08:30"));
    let b = a.duplicate();
    assert_eq!(b.description, a.description);
    assert_eq!(b.start, a.start);
    assert_eq!(b.end, a.end);
}
