use stribot::datetime::DateTime;
use stribot::errors::StribotError;
use stribot::temp::{parse_decimal, Temp};
use stribot::tgk::{MinMax, TempReading};

const UNIT: u128 = 1_000_000_000_000_000_000;

fn temp(neg: bool, units: u128) -> Temp {
    Temp { neg, units }
}

fn dt(year: u16, month: u8, day: u8, hour: u8, minute: u8, second: u8) -> DateTime {
    DateTime::new(year, month, day, hour, minute, second).unwrap()
}

#[test]
fn test_parse_temperature() {
    let contents = "<html><body><div id=\"temp\">\
                    Температура около НГУ -7.8 C</div></body></html>";
    assert_eq!(
        stribot::nsu::parse_temperature(contents).unwrap(),
        temp(true, 7_800_000_000_000_000_000)
    );
}

#[test]
fn temp_parsing() {
    let contents = "<html><body><b>-10,6&deg;C</b></body></html>";
    assert_eq!(
        stribot::tgk::parse_temperature(contents).unwrap(),
        temp(true, 10_600_000_000_000_000_000)
    );
}

#[test]
fn test_parse_minmax() {
    let contents = "<html><body><table>\
                    <tr><td>Date</td><td>Temperature</td></tr>\
                    <tr><td>2018-11-26 15:17:00</td><td>-7,6</td></tr>\
                    <tr><td>2018-11-27 08:42:00</td><td>-14,3</td></tr>\
                    <tr><td>stray formatting row</td><td>n/a</td></tr>\
                    </table></body></html>";
    let expected = MinMax {
        min: TempReading {
            temperature: temp(true, 14_300_000_000_000_000_000),
            datetime: dt(2018, 11, 27, 8, 42, 0),
        },
        max: TempReading {
            temperature: temp(true, 7_600_000_000_000_000_000),
            datetime: dt(2018, 11, 26, 15, 17, 0),
        },
    };
    assert_eq!(stribot::tgk::parse_minmax(contents, None).unwrap(), expected);
}

#[test]
fn nsu_not_found() {
    let contents = "no such phrase anywhere -7.8 C";
    assert_eq!(
        stribot::nsu::parse_temperature(contents),
        Err(StribotError::NotFound)
    );
}

#[test]
fn nsu_capture_with_two_separators_is_parse_error() {
    let contents = "Температура около НГУ 1.2.3 C";
    assert_eq!(
        stribot::nsu::parse_temperature(contents),
        Err(StribotError::ParseError)
    );
}

#[test]
fn nsu_takes_first_match_only() {
    let contents = "Температура около НГУ -1.5 C ... Температура около НГУ -9.5 C";
    assert_eq!(
        stribot::nsu::parse_temperature(contents).unwrap(),
        temp(true, 1_500_000_000_000_000_000)
    );
}

#[test]
fn tgk_not_found() {
    assert_eq!(
        stribot::tgk::parse_temperature("<html>nothing here</html>"),
        Err(StribotError::NotFound)
    );
}

#[test]
fn tgk_dot_decimal_accepted() {
    assert_eq!(
        stribot::tgk::parse_temperature("7.25&deg;C"),
        Ok(temp(false, 7_250_000_000_000_000_000))
    );
}

#[test]
fn decimal_plain_integer() {
    assert_eq!(parse_decimal("5"), Ok(temp(false, 5 * UNIT)));
}

#[test]
fn decimal_comma_normalized() {
    assert_eq!(parse_decimal("-10,6"), Ok(temp(true, 10_600_000_000_000_000_000)));
}

#[test]
fn decimal_leading_plus_sign() {
    assert_eq!(parse_decimal("+7.25"), Ok(temp(false, 7_250_000_000_000_000_000)));
}

#[test]
fn decimal_bare_fraction() {
    assert_eq!(parse_decimal(".5"), Ok(temp(false, 500_000_000_000_000_000)));
}

#[test]
fn decimal_negative_zero_is_canonical_zero() {
    assert_eq!(parse_decimal("-0.0"), Ok(temp(false, 0)));
    assert_eq!(parse_decimal("-0.0"), parse_decimal("0"));
}

#[test]
fn decimal_rejects_empty_and_signs_alone() {
    assert_eq!(parse_decimal(""), Err(StribotError::ParseError));
    assert_eq!(parse_decimal("-"), Err(StribotError::ParseError));
    assert_eq!(parse_decimal("+."), Err(StribotError::ParseError));
}

#[test]
fn decimal_rejects_no_digits_and_trailing_text() {
    assert_eq!(parse_decimal("abc"), Err(StribotError::ParseError));
    assert_eq!(parse_decimal("5x"), Err(StribotError::ParseError));
    assert_eq!(parse_decimal(" 5"), Err(StribotError::ParseError));
}

#[test]
fn decimal_rejects_two_separators() {
    assert_eq!(parse_decimal("1.2.3"), Err(StribotError::ParseError));
    assert_eq!(parse_decimal("1,2.3"), Err(StribotError::ParseError));
}

#[test]
fn decimal_rejects_oversized_parts() {
    // 19 integer digits: beyond the representable range.
    assert_eq!(
        parse_decimal("1234567890123456789"),
        Err(StribotError::ParseError)
    );
    // 19 fraction digits: beyond the representable precision.
    assert_eq!(
        parse_decimal("0.1234567890123456789"),
        Err(StribotError::ParseError)
    );
    // 18 of each is still exact.
    assert_eq!(
        parse_decimal("0.123456789012345678"),
        Ok(temp(false, 123_456_789_012_345_678))
    );
}

#[test]
fn datetime_parses_exact_format() {
    assert_eq!(
        stribot::datetime::parse_datetime("2018-11-26 15:17:00"),
        Ok(dt(2018, 11, 26, 15, 17, 0))
    );
}

#[test]
fn datetime_rejects_out_of_range_components() {
    assert_eq!(
        stribot::datetime::parse_datetime("2018-13-01 00:00:00"),
        Err(StribotError::ParseError)
    );
    assert_eq!(
        stribot::datetime::parse_datetime("2019-02-29 00:00:00"),
        Err(StribotError::ParseError)
    );
    assert_eq!(
        stribot::datetime::parse_datetime("2018-11-26 24:00:00"),
        Err(StribotError::ParseError)
    );
}

#[test]
fn datetime_accepts_leap_day() {
    assert_eq!(
        stribot::datetime::parse_datetime("2020-02-29 00:00:00"),
        Ok(dt(2020, 2, 29, 0, 0, 0))
    );
}

#[test]
fn datetime_rejects_format_deviations() {
    assert_eq!(
        stribot::datetime::parse_datetime("2018-11-26 15:17:00 "),
        Err(StribotError::ParseError)
    );
    assert_eq!(
        stribot::datetime::parse_datetime("2018/11/26 15:17:00"),
        Err(StribotError::ParseError)
    );
    assert_eq!(
        stribot::datetime::parse_datetime("18-11-26 15:17:00"),
        Err(StribotError::ParseError)
    );
}

#[test]
fn minmax_empty_input() {
    let readings: Vec<TempReading> = Vec::new();
    assert_eq!(
        stribot::tgk::minmax_of(&readings),
        Err(StribotError::EmptyInput)
    );
}

#[test]
fn minmax_tie_break_keeps_first() {
    let r1 = TempReading {
        datetime: dt(2018, 11, 26, 15, 17, 0),
        temperature: temp(false, 5 * UNIT),
    };
    let r2 = TempReading {
        datetime: dt(2018, 11, 27, 8, 42, 0),
        temperature: temp(false, 5 * UNIT),
    };
    let m = stribot::tgk::minmax_of(&vec![r1, r2]).unwrap();
    assert_eq!(m.min, r1);
    assert_eq!(m.max, r1);
}

#[test]
fn minmax_single_reading_is_both_extrema() {
    let r = TempReading {
        datetime: dt(2018, 11, 26, 15, 17, 0),
        temperature: temp(true, 7_600_000_000_000_000_000),
    };
    let m = stribot::tgk::minmax_of(&vec![r]).unwrap();
    assert_eq!(m, MinMax { min: r, max: r });
}

#[test]
fn parsing_same_body_twice_is_identical() {
    let body = "Температура около НГУ -7.8 C";
    assert_eq!(
        stribot::nsu::parse_temperature(body),
        stribot::nsu::parse_temperature(body)
    );
    let table = "<table><tr><td>h</td></tr>\
                 <tr><td>2018-11-26 15:17:00</td><td>-7,6</td></tr></table>";
    assert_eq!(
        stribot::tgk::parse_minmax(table, None),
        stribot::tgk::parse_minmax(table, None)
    );
}

#[test]
fn lower_bound_excludes_earlier_rows() {
    let table = "<table><tr><td>h</td></tr>\
                 <tr><td>2018-11-26 15:17:00</td><td>-7,6</td></tr>\
                 <tr><td>2018-11-27 08:42:00</td><td>-14,3</td></tr></table>";
    let latest = dt(2018, 11, 27, 8, 42, 0);
    let expected_row = TempReading {
        datetime: latest,
        temperature: temp(true, 14_300_000_000_000_000_000),
    };
    assert_eq!(
        stribot::tgk::parse_minmax(table, Some(latest)).unwrap(),
        MinMax { min: expected_row, max: expected_row }
    );
}

#[test]
fn lower_bound_past_all_rows_yields_empty_input() {
    let table = "<table><tr><td>h</td></tr>\
                 <tr><td>2018-11-26 15:17:00</td><td>-7,6</td></tr></table>";
    let after = dt(2018, 11, 26, 15, 17, 1);
    assert_eq!(
        stribot::tgk::parse_minmax(table, Some(after)),
        Err(StribotError::EmptyInput)
    );
}

#[test]
fn table_without_valid_rows_yields_empty_input() {
    assert_eq!(
        stribot::tgk::parse_minmax("<html>no table</html>", None),
        Err(StribotError::EmptyInput)
    );
    let only_header = "<table><tr><td>h</td></tr></table>";
    assert_eq!(
        stribot::tgk::parse_minmax(only_header, None),
        Err(StribotError::EmptyInput)
    );
}

#[test]
fn datetime_order_is_chronological() {
    let a = dt(2018, 11, 26, 15, 17, 0);
    let b = dt(2018, 11, 27, 8, 42, 0);
    assert!(stribot::datetime::dt_le_exec(&a, &b));
    assert!(!stribot::datetime::dt_le_exec(&b, &a));
    assert!(stribot::datetime::dt_le_exec(&a, &a));
}
