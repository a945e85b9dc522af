use usdnis::date::Date;
use usdnis::decimal::{parse_amount, Decimal};
use usdnis::output::{build_output_line, converted_cents};
use usdnis::resolve::{plan_conversion, should_retry, InputError};

fn dec(mantissa: u64, scale: u32) -> Decimal {
    Decimal { mantissa, scale }
}

#[test]
fn parse_amount_tokens() {
    assert_eq!(parse_amount(&b"100".to_vec()), Some(dec(100, 0)));
    assert_eq!(parse_amount(&b"2.5".to_vec()), Some(dec(25, 1)));
    assert_eq!(parse_amount(&b"007.25".to_vec()), Some(dec(725, 2)));
    assert_eq!(parse_amount(&b"0".to_vec()), Some(dec(0, 0)));
    assert_eq!(parse_amount(&b"".to_vec()), None);
    assert_eq!(parse_amount(&b"1.".to_vec()), None);
    assert_eq!(parse_amount(&b".5".to_vec()), None);
    assert_eq!(parse_amount(&b"1.2.3".to_vec()), None);
    assert_eq!(parse_amount(&b"-3".to_vec()), None);
    assert_eq!(parse_amount(&b"12345678901234567890123".to_vec()), None);
}

#[test]
fn conversion_rounds_to_cents() {
    // 3.152 * 100 = 315.20
    assert_eq!(converted_cents(dec(3152, 3), dec(100, 0)), Some(31520));
    // 3.152 * 2.5 = 7.88
    assert_eq!(converted_cents(dec(3152, 3), dec(25, 1)), Some(788));
    // 0.005 * 1 rounds up to 0.01
    assert_eq!(converted_cents(dec(5, 3), dec(1, 0)), Some(1));
    // 0.004 * 1 rounds down to 0.00
    assert_eq!(converted_cents(dec(4, 3), dec(1, 0)), Some(0));
    // integer rate and amount: 2 * 3 = 6.00
    assert_eq!(converted_cents(dec(2, 0), dec(3, 0)), Some(600));
}

#[test]
fn output_line_format() {
    let amounts = vec![dec(100, 0)];
    let line = build_output_line(Date { year: 2021, month: 12, day: 20 }, dec(3152, 3), &amounts)
        .unwrap();
    assert_eq!(String::from_utf8(line).unwrap(), "2021-12-20 (3.152): 315.20\n");
}

#[test]
fn output_line_keeps_input_order() {
    let amounts = vec![dec(100, 0), dec(1, 0), dec(25, 1)];
    let line = build_output_line(Date { year: 2021, month: 12, day: 20 }, dec(3152, 3), &amounts)
        .unwrap();
    assert_eq!(
        String::from_utf8(line).unwrap(),
        "2021-12-20 (3.152): 315.20 3.15 7.88\n",
    );
}

#[test]
fn output_line_renders_whole_and_small_rates() {
    let amounts = vec![dec(3, 0)];
    let line = build_output_line(Date { year: 2022, month: 1, day: 3 }, dec(2, 0), &amounts)
        .unwrap();
    assert_eq!(String::from_utf8(line).unwrap(), "2022-01-03 (2): 6.00\n");
    let small = build_output_line(Date { year: 2022, month: 1, day: 3 }, dec(5, 2), &amounts)
        .unwrap();
    assert_eq!(String::from_utf8(small).unwrap(), "2022-01-03 (0.05): 0.15\n");
}

#[test]
fn zero_amounts_is_a_usage_error() {
    let r = plan_conversion(&b"2021-12-20".to_vec(), 0);
    assert_eq!(r.unwrap_err(), InputError::NoAmounts);
}

#[test]
fn bad_date_is_an_input_error() {
    let r = plan_conversion(&b"2021-12-32".to_vec(), 1);
    assert_eq!(r.unwrap_err(), InputError::BadDate);
}

#[test]
fn plan_builds_the_lookback_query() {
    let plan = plan_conversion(&b"2021-12-20".to_vec(), 2).unwrap();
    assert_eq!(plan.target, Date { year: 2021, month: 12, day: 20 });
    assert_eq!(
        String::from_utf8(plan.query).unwrap(),
        "ge:2021-11-20+le:2021-12-20",
    );
}

#[test]
fn retry_stops_after_the_last_attempt() {
    assert!(should_retry(0, false));
    assert!(should_retry(1, false));
    assert!(should_retry(2, false));
    assert!(!should_retry(3, false));
    assert!(!should_retry(0, true));
}
