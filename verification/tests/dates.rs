use dozor::date::{civil_from_days, date_of_clock, today_utc, utc_date};

#[test]
fn civil_dates_are_right() {
    assert_eq!(civil_from_days(0), "1970-01-01");
    assert_eq!(civil_from_days(19_723), "2024-01-01");
}

#[test]
fn leap_days_are_dates() {
    assert_eq!(civil_from_days(19_782), "2024-02-29");
    assert_eq!(civil_from_days(19_783), "2024-03-01");
    assert_eq!(civil_from_days(11_016), "2000-02-29");
    assert_eq!(civil_from_days(-25_509), "1900-02-28");
    assert_eq!(civil_from_days(-25_508), "1900-03-01");
}

#[test]
fn days_before_the_epoch_are_dates() {
    assert_eq!(civil_from_days(-1), "1969-12-31");
    assert_eq!(civil_from_days(-719_468), "0000-03-01");
    assert_eq!(civil_from_days(-719_529), "-001-12-31");
}

#[test]
fn far_years_keep_all_their_digits() {
    assert_eq!(civil_from_days(2_932_896), "9999-12-31");
    assert_eq!(civil_from_days(2_932_897), "10000-01-01");
}

#[test]
fn a_day_has_86400_seconds() {
    assert_eq!(utc_date(0), "1970-01-01");
    assert_eq!(utc_date(86_399), "1970-01-01");
    assert_eq!(utc_date(86_400), "1970-01-02");
    assert_eq!(utc_date(1_788_652_799), "2026-09-05");
    assert_eq!(utc_date(1_788_652_800), "2026-09-06");
}

#[test]
fn today_is_written_as_a_date() {
    let today = today_utc();
    assert_eq!(today.len(), 10);
    assert!(today.as_str() > "2020-01-01");
    assert_eq!(&today[4..5], "-");
    assert_eq!(&today[7..8], "-");
}

#[test]
fn dates_order_as_texts() {
    assert!(civil_from_days(19_782) < civil_from_days(19_783));
    assert!(civil_from_days(0) < civil_from_days(19_723));
}

#[test]
fn a_clock_before_the_epoch_reads_as_its_first_day() {
    assert_eq!(date_of_clock(None), "1970-01-01");
    assert_eq!(date_of_clock(Some(0)), "1970-01-01");
    assert_eq!(date_of_clock(Some(86_399)), "1970-01-01");
    assert_eq!(date_of_clock(Some(86_400)), "1970-01-02");
    assert_eq!(date_of_clock(Some(1_704_067_200)), "2024-01-01");
}
