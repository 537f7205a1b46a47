use logline::parse::{parse_date, parse_line_values, parse_log_line, parse_time, parse_timestamp};
use logline::record::{Date, ParseError, Time};
use logline::scan::{delimiter, parse_digit_int, time_delimiter, whitespace};

#[test]
fn parse_digit_int_works() {
    let num = parse_digit_int("69.420");
    assert_eq!(num, Ok((".420", 69)));
}

#[test]
fn parse_digit_int_edge() {
    let num = parse_digit_int("999");
    assert_eq!(num, Ok(("", 999)));
}

#[test]
fn parse_time_fragment_works() {
    let test = parse_time("00:46:03.895");
    assert_eq!(
        test,
        Ok((
            "",
            Time {
                hour: 0,
                minute: 46,
                second: 3,
                millisecond: 895
            }
        ))
    )
}

#[test]
fn parse_date_works() {
    let test = parse_date("10/16");

    assert_eq!(test, Ok(("", Date { month: 10, day: 16 })))
}

#[test]
fn parse_line_values_works() {
    let test = parse_line_values("a,a,a");

    assert_eq!(test, Ok(("", vec!["a", "a", "a"])));
}

#[test]
fn parse_log_line_test() {
    let test = parse_log_line("10/17 01:00:29.037 HELLO_WORLD");

    assert_eq!(
        test,
        Ok((
            "",
            (
                Date { month: 10, day: 17 },
                Time {
                    hour: 1,
                    minute: 0,
                    second: 29,
                    millisecond: 37
                },
                vec!["HELLO_WORLD"]
            )
        ))
    )
}

#[test]
fn digit_int_without_digits_fails() {
    assert_eq!(parse_digit_int(""), Err(ParseError::NoDigits));
    assert_eq!(parse_digit_int("abc"), Err(ParseError::NoDigits));
    assert_eq!(parse_digit_int(".5"), Err(ParseError::NoDigits));
    assert_eq!(parse_digit_int("-5"), Err(ParseError::NoDigits));
    assert_eq!(parse_digit_int("+5"), Err(ParseError::NoDigits));
    assert_eq!(parse_digit_int(" 5"), Err(ParseError::NoDigits));
}

#[test]
fn digit_int_overflow_boundary() {
    assert_eq!(parse_digit_int("65535"), Ok(("", 65535)));
    assert_eq!(parse_digit_int("65536"), Err(ParseError::NumericOverflow));
    assert_eq!(parse_digit_int("65536:00"), Err(ParseError::NumericOverflow));
    assert_eq!(parse_digit_int("70000"), Err(ParseError::NumericOverflow));
    assert_eq!(
        parse_digit_int("99999999999999999999999999999999"),
        Err(ParseError::NumericOverflow)
    );
    assert_eq!(parse_digit_int("4294967296"), Err(ParseError::NumericOverflow));
    assert_eq!(parse_digit_int("4294967297x"), Err(ParseError::NumericOverflow));
}

#[test]
fn digit_int_reads_leading_zeros() {
    assert_eq!(parse_digit_int("0"), Ok(("", 0)));
    assert_eq!(parse_digit_int("007"), Ok(("", 7)));
    assert_eq!(parse_digit_int("00000000000000000000065535,"), Ok((",", 65535)));
}

#[test]
fn digit_int_stops_at_first_other_character() {
    assert_eq!(parse_digit_int("12/34"), Ok(("/34", 12)));
    assert_eq!(parse_digit_int("12 34"), Ok((" 34", 12)));
    assert_eq!(parse_digit_int("7\u{e9}8"), Ok(("\u{e9}8", 7)));
    // Digits outside ASCII are no digits here.
    assert_eq!(parse_digit_int("1\u{663}"), Ok(("\u{663}", 1)));
    assert_eq!(parse_digit_int("\u{663}1"), Err(ParseError::NoDigits));
}

#[test]
fn delimiter_takes_one_character() {
    assert_eq!(delimiter("/16", '/'), Ok(("16", '/')));
    assert_eq!(delimiter("//", '/'), Ok(("/", '/')));
    assert_eq!(delimiter(",", ','), Ok(("", ',')));
    assert_eq!(delimiter("16", '/'), Err(ParseError::UnexpectedDelimiter));
    assert_eq!(delimiter("", '/'), Err(ParseError::UnexpectedDelimiter));
    assert_eq!(delimiter(":", '/'), Err(ParseError::UnexpectedDelimiter));
}

#[test]
fn time_delimiter_is_colon_or_full_stop() {
    assert_eq!(time_delimiter(":46"), Ok(("46", ':')));
    assert_eq!(time_delimiter(".895"), Ok(("895", '.')));
    assert_eq!(time_delimiter(".:"), Ok((":", '.')));
    assert_eq!(time_delimiter("/46"), Err(ParseError::UnexpectedDelimiter));
    assert_eq!(time_delimiter(""), Err(ParseError::UnexpectedDelimiter));
    assert_eq!(time_delimiter(" :"), Err(ParseError::UnexpectedDelimiter));
}

#[test]
fn whitespace_takes_the_whole_run() {
    assert_eq!(whitespace(" x"), Ok("x"));
    assert_eq!(whitespace(" \t  x y"), Ok("x y"));
    assert_eq!(whitespace("\t"), Ok(""));
    assert_eq!(whitespace(" \nx"), Ok("\nx"));
    assert_eq!(whitespace("x "), Err(ParseError::MissingWhitespace));
    assert_eq!(whitespace("\n"), Err(ParseError::MissingWhitespace));
    assert_eq!(whitespace(""), Err(ParseError::IncompleteLine));
}

#[test]
fn time_accepts_either_delimiter_at_each_place() {
    let expected = Time { hour: 1, minute: 2, second: 3, millisecond: 4 };
    assert_eq!(parse_time("1:2:3.4"), Ok(("", expected)));
    assert_eq!(parse_time("1.2.3.4"), Ok(("", expected)));
    assert_eq!(parse_time("1:2:3:4"), Ok(("", expected)));
    assert_eq!(parse_time("1.2:3:4 rest"), Ok((" rest", expected)));
    assert_eq!(parse_time("1:2:3.4.5"), Ok((".5", expected)));
}

#[test]
fn time_is_not_range_checked() {
    assert_eq!(
        parse_time("99:99:99.65535"),
        Ok(("", Time { hour: 99, minute: 99, second: 99, millisecond: 65535 }))
    );
}

#[test]
fn time_reports_the_first_failure() {
    assert_eq!(parse_time(""), Err(ParseError::NoDigits));
    assert_eq!(parse_time(":46:03.895"), Err(ParseError::NoDigits));
    assert_eq!(parse_time("00"), Err(ParseError::UnexpectedDelimiter));
    assert_eq!(parse_time("00/46:03.895"), Err(ParseError::UnexpectedDelimiter));
    assert_eq!(parse_time("00:"), Err(ParseError::NoDigits));
    assert_eq!(parse_time("00:46"), Err(ParseError::UnexpectedDelimiter));
    assert_eq!(parse_time("00:46:03"), Err(ParseError::UnexpectedDelimiter));
    assert_eq!(parse_time("00:46:03."), Err(ParseError::NoDigits));
    assert_eq!(parse_time("00:46:03.x"), Err(ParseError::NoDigits));
    assert_eq!(parse_time("00:70000:03.895"), Err(ParseError::NumericOverflow));
    assert_eq!(parse_time("00:46:03.65536"), Err(ParseError::NumericOverflow));
    assert_eq!(parse_time("65536/"), Err(ParseError::NumericOverflow));
}

#[test]
fn date_reports_the_first_failure() {
    assert_eq!(parse_date(""), Err(ParseError::NoDigits));
    assert_eq!(parse_date("/16"), Err(ParseError::NoDigits));
    assert_eq!(parse_date("10"), Err(ParseError::UnexpectedDelimiter));
    assert_eq!(parse_date("10:16"), Err(ParseError::UnexpectedDelimiter));
    assert_eq!(parse_date("10/"), Err(ParseError::NoDigits));
    assert_eq!(parse_date("10/x"), Err(ParseError::NoDigits));
    assert_eq!(parse_date("100000/16"), Err(ParseError::NumericOverflow));
    assert_eq!(parse_date("10/100000"), Err(ParseError::NumericOverflow));
}

#[test]
fn date_leaves_what_follows() {
    assert_eq!(parse_date("10/16 rest"), Ok((" rest", Date { month: 10, day: 16 })));
    assert_eq!(parse_date("0/0/0"), Ok(("/0", Date { month: 0, day: 0 })));
    assert_eq!(parse_date("13/32x"), Ok(("x", Date { month: 13, day: 32 })));
}

#[test]
fn line_values_of_empty_input() {
    assert_eq!(parse_line_values(""), Ok(("", Vec::new())));
}

#[test]
fn line_values_keep_empty_spans() {
    assert_eq!(parse_line_values("a,,b"), Ok(("", vec!["a", "", "b"])));
    assert_eq!(parse_line_values("a,"), Ok(("", vec!["a", ""])));
    assert_eq!(parse_line_values(",a"), Ok(("", vec!["", "a"])));
    assert_eq!(parse_line_values(","), Ok(("", vec!["", ""])));
    assert_eq!(parse_line_values(",,"), Ok(("", vec!["", "", ""])));
}

#[test]
fn line_values_single_span() {
    assert_eq!(parse_line_values("HELLO_WORLD"), Ok(("", vec!["HELLO_WORLD"])));
    assert_eq!(parse_line_values("a b\tc"), Ok(("", vec!["a b\tc"])));
    assert_eq!(parse_line_values(" "), Ok(("", vec![" "])));
}

#[test]
fn line_values_split_only_on_commas() {
    assert_eq!(
        parse_line_values("SPELL_DAMAGE,0x01,\"Name, with comma\",12.5"),
        Ok(("", vec!["SPELL_DAMAGE", "0x01", "\"Name", " with comma\"", "12.5"]))
    );
    assert_eq!(parse_line_values("\u{e9},\u{4e16}\u{754c}"), Ok(("", vec!["\u{e9}", "\u{4e16}\u{754c}"])));
}

#[test]
fn line_values_rejoin_to_the_input() {
    let inputs = ["a,a,a", "a,,b", ",", "x", "a,b,", ",,,", "1,2 3,4"];
    for input in inputs {
        let (rest, fields) = parse_line_values(input).unwrap();
        assert_eq!(rest, "");
        assert_eq!(fields.join(","), input);
        assert!(fields.iter().all(|f| !f.contains(',')));
    }
}

#[test]
fn timestamp_leaves_the_payload() {
    let date = Date { month: 10, day: 17 };
    let time = Time { hour: 1, minute: 0, second: 29, millisecond: 37 };
    assert_eq!(
        parse_timestamp("10/17 01:00:29.037 HELLO_WORLD"),
        Ok((" HELLO_WORLD", (date, time)))
    );
    assert_eq!(parse_timestamp("10/17\t \t01:00:29.037"), Ok(("", (date, time))));
    assert_eq!(parse_timestamp("10/17 01:00:29.037,x"), Ok((",x", (date, time))));
}

#[test]
fn timestamp_reports_the_first_failure() {
    assert_eq!(parse_timestamp(""), Err(ParseError::NoDigits));
    assert_eq!(parse_timestamp("10/17"), Err(ParseError::IncompleteLine));
    assert_eq!(parse_timestamp("10/17x"), Err(ParseError::MissingWhitespace));
    assert_eq!(parse_timestamp("10/17/01:00:29.037"), Err(ParseError::MissingWhitespace));
    assert_eq!(parse_timestamp("10/17 "), Err(ParseError::NoDigits));
    assert_eq!(parse_timestamp("10/17 01:00"), Err(ParseError::UnexpectedDelimiter));
    assert_eq!(parse_timestamp("10-17 01:00:29.037"), Err(ParseError::UnexpectedDelimiter));
    assert_eq!(parse_timestamp("10/17 01:00:29.99999"), Err(ParseError::NumericOverflow));
}

#[test]
fn log_line_with_field_list() {
    let date = Date { month: 1, day: 2 };
    let time = Time { hour: 3, minute: 4, second: 5, millisecond: 6 };
    assert_eq!(
        parse_log_line("1/2 3:4:5.6  SPELL_CAST,Player-1,,0x0"),
        Ok(("", (date, time, vec!["SPELL_CAST", "Player-1", "", "0x0"])))
    );
    assert_eq!(
        parse_log_line("0001/0002\t0003.0004.0005.0006 a b, c"),
        Ok(("", (date, time, vec!["a b", " c"])))
    );
}

#[test]
fn log_line_with_empty_payload() {
    let date = Date { month: 10, day: 17 };
    let time = Time { hour: 1, minute: 0, second: 29, millisecond: 37 };
    assert_eq!(parse_log_line("10/17 01:00:29.037 "), Ok(("", (date, time, Vec::new()))));
}

#[test]
fn log_line_reports_the_first_failure() {
    assert_eq!(parse_log_line(""), Err(ParseError::NoDigits));
    assert_eq!(parse_log_line("hello"), Err(ParseError::NoDigits));
    assert_eq!(parse_log_line("10"), Err(ParseError::UnexpectedDelimiter));
    assert_eq!(parse_log_line("10/17"), Err(ParseError::IncompleteLine));
    assert_eq!(parse_log_line("10/17 01:00:29.037"), Err(ParseError::IncompleteLine));
    assert_eq!(parse_log_line("10/17 01:00:29.037,HELLO"), Err(ParseError::MissingWhitespace));
    assert_eq!(parse_log_line("10/17T01:00:29.037 HELLO"), Err(ParseError::MissingWhitespace));
    assert_eq!(parse_log_line("10/17 01:00:29 HELLO"), Err(ParseError::UnexpectedDelimiter));
    assert_eq!(parse_log_line("10/17 01:00:29.x HELLO"), Err(ParseError::NoDigits));
    assert_eq!(parse_log_line("10/65536 01:00:29.037 HELLO"), Err(ParseError::NumericOverflow));
}

#[test]
fn log_line_reconstructs_every_short_field() {
    let samples: [(&str, u16); 6] =
        [("0", 0), ("9", 9), ("07", 7), ("123", 123), ("9999", 9999), ("0000", 0)];
    for (d1, v1) in samples {
        for (ms, v2) in samples {
            let line = format!("{}/{} {}:{}:{}.{} {}", d1, ms, ms, d1, d1, ms, "A,B");
            let expected_date = Date { month: v1, day: v2 };
            let expected_time = Time { hour: v2, minute: v1, second: v1, millisecond: v2 };
            assert_eq!(
                parse_log_line(&line),
                Ok(("", (expected_date, expected_time, vec!["A", "B"])))
            );
            assert_eq!(
                parse_timestamp(&line),
                Ok((" A,B", (expected_date, expected_time)))
            );
        }
    }
}
