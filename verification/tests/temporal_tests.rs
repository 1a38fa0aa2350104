use apptbook::temporal::combine;
use apptbook::temporal::parse_date;
use apptbook::temporal::parse_time;
use apptbook::temporal::Instant;

fn instant(date: &str, time: &str) -> Instant {
    combine(parse_date(date).unwrap(), parse_time(time).unwrap())
}

#[test]
fn regex_date() {
    assert_eq!(parse_date("02/02/2020").is_ok(), true);
    assert_eq!(parse_date("02/29/2020").is_ok(), true);
    assert_eq!(parse_date("02/30/2020").is_ok(), false);
    assert_eq!(parse_date("02/31/2020").is_ok(), false);
    assert_eq!(parse_date("04/30/2020").is_ok(), true);
    assert_eq!(parse_date("04/31/2020").is_ok(), false);
}

#[test]
fn regex_time() {
    assert_eq!(parse_time("00:00").is_ok(), true);
    assert_eq!(parse_time("23:59").is_ok(), true);
    assert_eq!(parse_time("24:00").is_ok(), false);
    assert_eq!(parse_time("24:30").is_ok(), false);
    assert_eq!(parse_time("12:60").is_ok(), false);
    assert_eq!(parse_time("12:59").is_ok(), true);
    assert_eq!(parse_time("00:32").is_ok(), true);
}

#[test]
fn can_sort_date_time() {
    let dt1 = instant("02/02/2020", "11:30");
    let dt2 = instant("02/02/2020", "11:00");
    let dt3 = instant("02/02/2020", "11:15");
    let dt4 = instant("02/02/1999", "12:30");

    let mut v: Vec<Instant> = Vec::new();
    v.push(dt1);
    v.push(dt2);
    v.push(dt3);
    v.push(dt4);

    v.sort();

    assert_eq!(v, vec![dt4, dt2, dt3, dt1]);
}

#[test]
fn date_time_string_format() {
    let dt1 = instant("02/17/2020", "23:00");
    let dt2 = instant("02/18/2020", "00:45");

    assert_eq!(dt1.display(), "02/17/2020 23:00");
    assert_eq!(dt2.display(), "02/18/2020 00:45");
}

#[test]
fn date_less_than() {
    let dt1 = instant("02/04/2020", "00:00");
    let dt2 = instant("02/03/2020", "00:00");

    let dt3 = instant("02/29/2020", "00:00");
    let dt4 = instant("02/01/2020", "00:00");

    assert!(dt2 < dt1);
    assert!(dt4 < dt3);
}

#[test]
fn time_less_than() {
    let dt1 = instant("01/01/2020", "14:30");
    let dt2 = instant("01/01/2020", "14:25");

    let dt3 = instant("01/01/2020", "23:59");
    let dt4 = instant("01/01/2020", "00:00");

    assert!(dt2 < dt1);
    assert!(dt4 < dt3);
}

#[test]
fn leap_year_rules() {
    assert!(parse_date("02/29/2021").is_err());
    assert!(parse_date("02/29/2000").is_ok());
    assert!(parse_date("02/29/1900").is_err());
    assert!(parse_date("02/29/2400").is_ok());
    assert!(parse_date("02/28/1900").is_ok());
}

#[test]
fn date_lexical_shape() {
    assert!(parse_date("2/2/2020").is_err());
    assert!(parse_date("02-02-2020").is_err());
    assert!(parse_date("13/01/2020").is_err());
    assert!(parse_date("00/10/2020").is_err());
    assert!(parse_date("10/00/2020").is_err());
    assert!(parse_date("02/02/20201").is_err());
    assert!(parse_date("").is_err());
    let d = parse_date("06/30/2020").unwrap();
    assert_eq!((d.month, d.day, d.year), (6, 30, 2020));
}

#[test]
fn time_lexical_shape() {
    assert!(parse_time("7:30").is_err());
    assert!(parse_time("0730").is_err());
    assert!(parse_time("07:3").is_err());
    assert!(parse_time("ab:cd").is_err());
    assert!(parse_time("").is_err());
    let t = parse_time("07:30").unwrap();
    assert_eq!((t.hour, t.minute), (7, 30));
}

#[test]
fn parse_errors_are_typed() {
    assert_eq!(
        parse_date("02/30/2020").unwrap_err(),
        apptbook::errors::ValidationError::InvalidDate
    );
    assert_eq!(
        parse_time("24:00").unwrap_err(),
        apptbook::errors::ValidationError::InvalidTime
    );
}

#[test]
fn validate_range_orders_instants() {
    let a = instant("02/02/2020", "11:30");
    let b = instant("02/02/2020", "12:15");
    assert!(apptbook::temporal::validate_range(a, b).is_ok());
    assert!(apptbook::temporal::validate_range(a, a).is_ok());
    assert_eq!(
        apptbook::temporal::validate_range(b, a).unwrap_err(),
        apptbook::errors::ValidationError::EndBeforeStart
    );
}

#[test]
fn duration_same_day() {
    let a = instant("02/02/2020", "11:30");
    let b = instant("02/02/2020", "12:15");
    assert_eq!(apptbook::temporal::duration_minutes(a, b), 45);
    assert_eq!(apptbook::temporal::duration_minutes(a, a), 0);
}

#[test]
fn duration_across_days_and_leap_years() {
    let a = instant("02/17/2020", "23:00");
    let b = instant("02/18/2020", "00:45");
    assert_eq!(apptbook::temporal::duration_minutes(a, b), 105);

    let c = instant("12/31/2019", "23:00");
    let d = instant("01/01/2020", "01:00");
    assert_eq!(apptbook::temporal::duration_minutes(c, d), 120);

    let e = instant("02/28/2020", "23:00");
    let f = instant("03/01/2020", "00:00");
    assert_eq!(apptbook::temporal::duration_minutes(e, f), 1500);

    let g = instant("02/28/2021", "23:00");
    let h = instant("03/01/2021", "00:00");
    assert_eq!(apptbook::temporal::duration_minutes(g, h), 60);
}
