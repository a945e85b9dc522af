use usdnis::date::{parse_date, Date};

fn ymd(year: i32, month: u8, day: u8) -> Date {
    Date { year, month, day }
}

#[test]
fn parse_well_formed_date() {
    assert_eq!(parse_date(&b"2021-12-20".to_vec()), Some(ymd(2021, 12, 20)));
    assert_eq!(parse_date(&b"0001-01-01".to_vec()), Some(ymd(1, 1, 1)));
    assert_eq!(parse_date(&b"9999-12-31".to_vec()), Some(ymd(9999, 12, 31)));
}

#[test]
fn parse_rejects_bad_text() {
    assert_eq!(parse_date(&b"".to_vec()), None);
    assert_eq!(parse_date(&b"2021-12-2".to_vec()), None);
    assert_eq!(parse_date(&b"2021/12/20".to_vec()), None);
    assert_eq!(parse_date(&b"21-12-2020".to_vec()), None);
    assert_eq!(parse_date(&b"2021-12-20 ".to_vec()), None);
    assert_eq!(parse_date(&b"yyyy-mm-dd".to_vec()), None);
}

#[test]
fn parse_rejects_nonexistent_days() {
    assert_eq!(parse_date(&b"2021-13-01".to_vec()), None);
    assert_eq!(parse_date(&b"2021-00-10".to_vec()), None);
    assert_eq!(parse_date(&b"2021-04-31".to_vec()), None);
    assert_eq!(parse_date(&b"2021-02-29".to_vec()), None);
    assert_eq!(parse_date(&b"2024-02-29".to_vec()), Some(ymd(2024, 2, 29)));
    assert_eq!(parse_date(&b"1900-02-29".to_vec()), None);
    assert_eq!(parse_date(&b"2000-02-29".to_vec()), Some(ymd(2000, 2, 29)));
}

#[test]
fn minus_days_steps_over_months_and_years() {
    assert_eq!(ymd(2021, 12, 20).minus_days(3), ymd(2021, 12, 17));
    assert_eq!(ymd(2022, 1, 5).minus_days(10), ymd(2021, 12, 26));
    assert_eq!(ymd(2021, 12, 19).minus_days(30), ymd(2021, 11, 19));
    assert_eq!(ymd(2024, 3, 1).minus_days(1), ymd(2024, 2, 29));
    assert_eq!(ymd(2023, 3, 1).minus_days(1), ymd(2023, 2, 28));
    assert_eq!(ymd(2021, 1, 1).minus_days(1), ymd(2020, 12, 31));
    assert_eq!(ymd(2021, 12, 20).minus_days(0), ymd(2021, 12, 20));
}

#[test]
fn calendar_order() {
    assert!(ymd(2021, 12, 17).on_or_before(ymd(2021, 12, 20)));
    assert!(ymd(2021, 12, 20).on_or_before(ymd(2021, 12, 20)));
    assert!(!ymd(2021, 12, 21).on_or_before(ymd(2021, 12, 20)));
    assert!(ymd(2020, 12, 31).on_or_before(ymd(2021, 1, 1)));
    assert!(ymd(2021, 11, 30).on_or_before(ymd(2021, 12, 1)));
}
