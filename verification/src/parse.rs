//! The composite parsers: time, date, field list, timestamp and whole line.

use vstd::prelude::*;
use vstd::string::*;
use vstd::utf8::{encode_utf8, encode_utf8_decode_utf8, encode_utf8_valid_utf8};
use crate::grammar::{
    date_of, digit_int_then_delimiter_of, field_chars, fields_of, lemma_run_len_ends, lemma_run_len_unique, line_of,
    run_len, spans_of, time_of, timestamp_of, views,
};
use crate::record::{Date, ParseError, Time};
use crate::scan::{delimiter, parse_digit_int, run_before, time_delimiter, whitespace};

verus! {

/// A number and the time separator after it.
fn parse_time_field<'a>(input: &'a str) -> (res: Result<(&'a str, u16), ParseError>)
    ensures
        match res {
            Ok((rest, value)) => digit_int_then_delimiter_of(input@) == Ok::<_, ParseError>(
                (rest@, value),
            ),
            Err(e) => digit_int_then_delimiter_of(input@) == Err::<(Seq<char>, u16), _>(e),
        },
{
    let (rest, value) = match parse_digit_int(input) {
        Ok(found) => found,
        Err(e) => { return Err(e); },
    };
    match time_delimiter(rest) {
        Ok((rest, _)) => Ok((rest, value)),
        Err(e) => Err(e),
    }
}

/// A time at the start of `input`: hour, minute, second and millisecond, each
/// a number, with a colon or a full stop after each of the first three.
/// Returns what follows the time, and the time; fails with the error of the
/// first part that fails.
pub fn parse_time<'a>(input: &'a str) -> (res: Result<(&'a str, Time), ParseError>)
    ensures
        match res {
            Ok((rest, time)) => time_of(input@) == Ok::<_, ParseError>((rest@, time)),
            Err(e) => time_of(input@) == Err::<(Seq<char>, Time), _>(e),
        },
{
    let (input, hour) = match parse_time_field(input) {
        Ok(found) => found,
        Err(e) => { return Err(e); },
    };
    let (input, minute) = match parse_time_field(input) {
        Ok(found) => found,
        Err(e) => { return Err(e); },
    };
    let (input, second) = match parse_time_field(input) {
        Ok(found) => found,
        Err(e) => { return Err(e); },
    };
    let (input, millisecond) = match parse_digit_int(input) {
        Ok(found) => found,
        Err(e) => { return Err(e); },
    };
    Ok((input, Time { hour, minute, second, millisecond }))
}

/// A date at the start of `input`: month and day, each a number, with a slash
/// between them. Returns what follows the date, and the date; fails with the
/// error of the first part that fails.
pub fn parse_date<'a>(input: &'a str) -> (res: Result<(&'a str, Date), ParseError>)
    ensures
        match res {
            Ok((rest, date)) => date_of(input@) == Ok::<_, ParseError>((rest@, date)),
            Err(e) => date_of(input@) == Err::<(Seq<char>, Date), _>(e),
        },
{
    let (input, month) = match parse_digit_int(input) {
        Ok(found) => found,
        Err(e) => { return Err(e); },
    };
    let (input, _) = match delimiter(input, '/') {
        Ok(found) => found,
        Err(e) => { return Err(e); },
    };
    let (input, day) = match parse_digit_int(input) {
        Ok(found) => found,
        Err(e) => { return Err(e); },
    };
    Ok((input, Date { month, day }))
}

/// A date, blank space and a time at the start of `input`. Returns what
/// follows the time, and both values; fails with the error of the first part
/// that fails.
pub fn parse_timestamp<'a>(input: &'a str) -> (res: Result<(&'a str, (Date, Time)), ParseError>)
    ensures
        match res {
            Ok((rest, stamp)) => timestamp_of(input@) == Ok::<_, ParseError>((rest@, stamp)),
            Err(e) => timestamp_of(input@) == Err::<(Seq<char>, (Date, Time)), _>(e),
        },
{
    let (input, date) = match parse_date(input) {
        Ok(found) => found,
        Err(e) => { return Err(e); },
    };
    let input = match whitespace(input) {
        Ok(rest) => rest,
        Err(e) => { return Err(e); },
    };
    let (input, time) = match parse_time(input) {
        Ok(found) => found,
        Err(e) => { return Err(e); },
    };
    Ok((input, (date, time)))
}

/// The empty span at the start of `input`.
fn empty_span<'a>(input: &'a str) -> (span: &'a str)
    ensures
        span@.len() == 0,
{
    proof {
        encode_utf8_valid_utf8(input@);
    }
    let (span, _) = input.split_at(0);
    proof {
        encode_utf8_decode_utf8(span@);
        encode_utf8_decode_utf8(Seq::<char>::empty());
        assert(span.spec_bytes() =~= encode_utf8(Seq::<char>::empty()));
    }
    span
}

/// The next span of a field list: the longest leading run of characters
/// other than the comma, which may be empty. Returns what follows the span,
/// then the span.
fn parse_span<'a>(input: &'a str) -> (res: (&'a str, &'a str))
    ensures
        res.1@ == input@.take(run_len(input@, field_chars()) as int),
        res.0@ == input@.skip(run_len(input@, field_chars()) as int),
        res.0@.len() > 0 ==> res.0@[0] == ',',
{
    proof {
        reveal_strlit(",");
    }
    let ghost stop = |c: char| !","@.contains(c);
    match run_before(input, ",") {
        Some((rest, span)) => {
            proof {
                let k = span@.len() as int;
                assert forall|i: int| 0 <= i < k implies field_chars()(#[trigger] input@[i]) by {
                    assert(stop(input@[i]));
                    assert(","@[0] == ',');
                }
                if k < input@.len() {
                    assert(!stop(input@[k]));
                    assert(rest@[0] == input@[k]);
                }
                lemma_run_len_unique(input@, field_chars(), k);
                assert(input@.take(k) =~= span@);
                assert(input@.skip(k) =~= rest@);
            }
            (rest, span)
        },
        None => {
            let span = empty_span(input);
            proof {
                lemma_run_len_unique(input@, field_chars(), 0);
                assert(input@.take(0) =~= span@);
                assert(input@.skip(0) =~= input@);
            }
            (input, span)
        },
    }
}

/// The payload of a line as a list of fields: the spans between its commas,
/// in order, empty ones included. The empty payload has no field; any other
/// has one more field than it has commas. All of the input is consumed, so
/// what is returned as left over is empty, and the result is always `Ok`.
pub fn parse_line_values<'a>(input: &'a str) -> (res: Result<(&'a str, Vec<&'a str>), ParseError>)
    ensures
        res matches Ok((rest, fields)) && rest@.len() == 0 && views(fields@) == fields_of(input@),
{
    let mut fields: Vec<&'a str> = Vec::new();
    if input.is_empty() {
        assert(views(fields@) =~= fields_of(input@));
        return Ok((input, fields));
    }
    let mut text: &'a str = input;
    loop
        invariant
            input@.len() > 0,
            views(fields@) + spans_of(text@) == spans_of(input@),
        decreases text@.len(),
    {
        let (after, span) = parse_span(text);
        let ghost before = fields@;
        fields.push(span);
        proof {
            lemma_run_len_ends(text@, field_chars());
            assert(views(fields@) =~= views(before) + seq![span@]);
        }
        match delimiter(after, ',') {
            Ok((next, _)) => {
                proof {
                    let k = run_len(text@, field_chars()) as int;
                    assert(next@ =~= text@.skip(k + 1));
                    assert(views(fields@) + spans_of(next@) =~= views(before) + spans_of(text@));
                }
                text = next;
            },
            Err(_) => {
                proof {
                    assert(span@ =~= text@);
                    assert(views(fields@) =~= views(before) + spans_of(text@));
                }
                return Ok((after, fields));
            },
        }
    }
}

/// A whole line: a date, blank space, a time, blank space, and the payload as
/// a field list. Returns what is left over, which is empty since the field
/// list takes all of the payload, and the three values; fails with the error
/// of the first part that fails.
pub fn parse_log_line<'a>(input: &'a str) -> (res: Result<
    (&'a str, (Date, Time, Vec<&'a str>)),
    ParseError,
>)
    ensures
        match res {
            Ok((rest, (date, time, fields))) => line_of(input@) == Ok::<_, ParseError>(
                (rest@, (date, time, views(fields@))),
            ),
            Err(e) => line_of(input@) == Err::<(Seq<char>, (Date, Time, Seq<Seq<char>>)), _>(e),
        },
{
    let (input, (date, time)) = match parse_timestamp(input) {
        Ok(found) => found,
        Err(e) => { return Err(e); },
    };
    let input = match whitespace(input) {
        Ok(rest) => rest,
        Err(e) => { return Err(e); },
    };
    match parse_line_values(input) {
        Ok((rest, fields)) => {
            assert(rest@ =~= Seq::<char>::empty());
            Ok((rest, (date, time, fields)))
        },
        Err(e) => Err(e),
    }
}

} // verus!
