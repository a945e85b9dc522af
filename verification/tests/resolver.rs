use usdnis::date::Date;
use usdnis::decimal::Decimal;
use usdnis::resolve::{resolve_from_body, ResolveError};

fn ymd(year: i32, month: u8, day: u8) -> Date {
    Date { year, month, day }
}

fn obs(date: &str, value: &str) -> String {
    format!("<Obs TIME_PERIOD=\"{}\" OBS_VALUE=\"{}\"></Obs>", date, value)
}

fn series_body(observations: &[(&str, &str)]) -> Vec<u8> {
    let mut body = String::from(
        "<StructureSpecificData><DataSet><Series FREQ=\"D\" BASE_CUR=\"USD\">",
    );
    for (d, v) in observations {
        body.push_str(&obs(d, v));
    }
    body.push_str("</Series></DataSet></StructureSpecificData>");
    body.into_bytes()
}

#[test]
fn exchange_rate_weekday() {
    let body = series_body(&[
        ("2021-12-16", "3.138"),
        ("2021-12-17", "3.115"),
        ("2021-12-20", "3.152"),
    ]);
    let (rate, date) = resolve_from_body(ymd(2021, 12, 20), &body).unwrap();
    assert_eq!(rate, Decimal { mantissa: 3152, scale: 3 });
    assert_eq!(date, ymd(2021, 12, 20));
}

#[test]
fn exchange_rate_sunday() {
    let body = series_body(&[("2021-12-16", "3.138"), ("2021-12-17", "3.115")]);
    let (rate, date) = resolve_from_body(ymd(2021, 12, 19), &body).unwrap();
    assert_eq!(rate, Decimal { mantissa: 3115, scale: 3 });
    assert_eq!(date, ymd(2021, 12, 17));
}

#[test]
fn exchange_rate_distant_future() {
    let body = series_body(&[]);
    let r = resolve_from_body(ymd(3000, 1, 1), &body);
    assert!(r.is_err());
    assert_eq!(r.unwrap_err(), ResolveError::NotFound { requested: ymd(3000, 1, 1) });
}

#[test]
fn resolve_is_idempotent() {
    let body = series_body(&[("2021-12-17", "3.115"), ("2021-12-20", "3.152")]);
    let first = resolve_from_body(ymd(2021, 12, 20), &body);
    let second = resolve_from_body(ymd(2021, 12, 20), &body);
    assert_eq!(first, second);
}

#[test]
fn observation_on_window_start_resolves() {
    let body = series_body(&[("2021-11-20", "3.101")]);
    let (rate, date) = resolve_from_body(ymd(2021, 12, 20), &body).unwrap();
    assert_eq!(rate, Decimal { mantissa: 3101, scale: 3 });
    assert_eq!(date, ymd(2021, 11, 20));
}

#[test]
fn observation_older_than_window_is_absent() {
    let body = series_body(&[("2021-11-19", "3.101")]);
    let r = resolve_from_body(ymd(2021, 12, 20), &body);
    assert_eq!(r.unwrap_err(), ResolveError::NotFound { requested: ymd(2021, 12, 20) });
}

#[test]
fn observation_after_target_is_absent() {
    let body = series_body(&[("2021-12-21", "3.160")]);
    let r = resolve_from_body(ymd(2021, 12, 20), &body);
    assert_eq!(r.unwrap_err(), ResolveError::NotFound { requested: ymd(2021, 12, 20) });
}

#[test]
fn malformed_observation_date_is_absent() {
    let body = series_body(&[("2021-13-40", "3.152")]);
    let r = resolve_from_body(ymd(2021, 12, 20), &body);
    assert_eq!(r.unwrap_err(), ResolveError::NotFound { requested: ymd(2021, 12, 20) });
}

#[test]
fn oversized_rate_value_is_absent() {
    let body = series_body(&[("2021-12-20", "123456789012345678901234567890.5")]);
    let r = resolve_from_body(ymd(2021, 12, 20), &body);
    assert_eq!(r.unwrap_err(), ResolveError::NotFound { requested: ymd(2021, 12, 20) });
}

#[test]
fn zero_valued_observation_is_absent() {
    let body = series_body(&[("2021-12-20", "0.000")]);
    let r = resolve_from_body(ymd(2021, 12, 20), &body);
    assert_eq!(r.unwrap_err(), ResolveError::NotFound { requested: ymd(2021, 12, 20) });
}

#[test]
fn smallest_positive_observation_resolves() {
    let body = series_body(&[("2021-12-20", "0.001")]);
    let (rate, date) = resolve_from_body(ymd(2021, 12, 20), &body).unwrap();
    assert_eq!(rate, Decimal { mantissa: 1, scale: 3 });
    assert_eq!(date, ymd(2021, 12, 20));
}

#[test]
fn malformed_markup_is_absent() {
    let body = b"<html>service unavailable</html>".to_vec();
    let r = resolve_from_body(ymd(2021, 12, 20), &body);
    assert_eq!(r.unwrap_err(), ResolveError::NotFound { requested: ymd(2021, 12, 20) });
}

#[test]
fn only_series_closing_observation_counts() {
    // the record right before </Series> is the most recent one; records with
    // extra attributes before the closing angle bracket still match
    let mut body = String::from("<Series>");
    body.push_str("<Obs TIME_PERIOD=\"2021-12-16\" OBS_VALUE=\"3.138\"></Obs>");
    body.push_str("<Obs TIME_PERIOD=\"2021-12-17\" OBS_VALUE=\"3.115\" OBS_STATUS=\"A\"></Obs>");
    body.push_str("</Series>");
    let bytes = body.into_bytes();
    let (rate, date) = resolve_from_body(ymd(2021, 12, 20), &bytes).unwrap();
    assert_eq!(rate, Decimal { mantissa: 3115, scale: 3 });
    assert_eq!(date, ymd(2021, 12, 17));
}
