//! Facts about the grammar that hold for every input: what a well-formed line
//! parses to, that no parser takes more or less than its part of the input,
//! and that a number above the 16-bit range is refused.

use vstd::prelude::*;
use crate::grammar::{
    blank_of, blanks, date_of, decimal, delimiter_of, digit_int_of, digit_int_then_delimiter_of,
    digit_value, digits, field_chars, fields_of, is_blank, is_digit, lemma_run_len_ends,
    lemma_run_len_unique, line_of, run_ends_at, run_len, spans_of, time_delimiter_of, time_of,
    timestamp_of,
};
use crate::record::{Date, ParseError, Time};

verus! {

/// A non-empty sequence of decimal digits.
pub open spec fn is_number(s: Seq<char>) -> bool {
    &&& s.len() > 0
    &&& forall|i: int| 0 <= i < s.len() ==> is_digit(#[trigger] s[i])
}

/// `rest` is what is left of `s` after some prefix of it.
pub open spec fn is_suffix_of(rest: Seq<char>, s: Seq<char>) -> bool {
    &&& rest.len() <= s.len()
    &&& rest == s.skip(s.len() - rest.len())
}

/// The part of `s` that stands before its suffix `rest`.
pub open spec fn consumed(s: Seq<char>, rest: Seq<char>) -> Seq<char> {
    s.take(s.len() - rest.len())
}

/// The text of a line with the given six numbers and payload: date and time
/// parted by one space, the time written with two colons and a full stop, and
/// one space before the payload.
pub open spec fn line_text(
    month: Seq<char>,
    day: Seq<char>,
    hour: Seq<char>,
    minute: Seq<char>,
    second: Seq<char>,
    millisecond: Seq<char>,
    payload: Seq<char>,
) -> Seq<char> {
    month + seq!['/'] + day + seq![' '] + hour + seq![':'] + minute + seq![':'] + second
        + seq!['.'] + millisecond + seq![' '] + payload
}

/// The fields of a list written out again with a comma between neighbours.
pub open spec fn joined(fields: Seq<Seq<char>>) -> Seq<char>
    decreases fields.len(),
{
    if fields.len() == 0 {
        Seq::empty()
    } else if fields.len() == 1 {
        fields[0]
    } else {
        fields[0] + seq![','] + joined(fields.skip(1))
    }
}

/// A digit sequence of length `n` denotes a number below `10^n`; here for the
/// lengths up to four, where the number is at most 9999 and so fits in 16 bits.
pub proof fn lemma_short_number_fits(s: Seq<char>)
    requires
        is_number(s),
        s.len() <= 4,
    ensures
        decimal(s) <= 9999,
        decimal(s) <= u16::MAX,
{
    let a = s.drop_last();
    assert(decimal(s) == decimal(a) * 10 + digit_value(s.last()));
    assert(is_digit(s[s.len() - 1]));
    if a.len() > 0 {
        let b = a.drop_last();
        assert(is_digit(s[s.len() - 2]));
        assert(decimal(a) == decimal(b) * 10 + digit_value(a.last()));
        if b.len() > 0 {
            let c = b.drop_last();
            assert(is_digit(s[s.len() - 3]));
            assert(decimal(b) == decimal(c) * 10 + digit_value(b.last()));
            if c.len() > 0 {
                let d = c.drop_last();
                assert(is_digit(s[s.len() - 4]));
                assert(decimal(c) == decimal(d) * 10 + digit_value(c.last()));
                assert(decimal(d) == 0);
            }
        }
    }
}

/// A number followed by something that does not go on with a digit is read
/// whole: the scanner stops exactly where the number ends, returns its value
/// where that fits in 16 bits, and fails with `NumericOverflow` where it does not.
pub proof fn lemma_number_then_tail(number: Seq<char>, tail: Seq<char>)
    requires
        is_number(number),
        tail.len() == 0 || !is_digit(tail[0]),
    ensures
        decimal(number) <= u16::MAX ==> digit_int_of(number + tail) == Ok::<_, ParseError>(
            (tail, decimal(number) as u16),
        ),
        decimal(number) > u16::MAX ==> digit_int_of(number + tail) == Err::<(Seq<char>, u16), _>(
            ParseError::NumericOverflow,
        ),
{
    let s = number + tail;
    let k = number.len() as int;
    assert forall|i: int| 0 <= i < k implies digits()(#[trigger] s[i]) by {
        assert(s[i] == number[i]);
    }
    if k < s.len() {
        assert(s[k] == tail[0]);
    }
    lemma_run_len_unique(s, digits(), k);
    assert(s.take(k) =~= number);
    assert(s.skip(k) =~= tail);
}

/// A number above the 16-bit range is refused with `NumericOverflow`, however
/// long its digit run is and whatever follows it.
pub proof fn lemma_number_above_range_overflows(number: Seq<char>, tail: Seq<char>)
    requires
        is_number(number),
        decimal(number) > 65535,
        tail.len() == 0 || !is_digit(tail[0]),
    ensures
        digit_int_of(number + tail) == Err::<(Seq<char>, u16), _>(ParseError::NumericOverflow),
{
    lemma_number_then_tail(number, tail);
}

/// The number scanner takes exactly the leading digit run: on success what it
/// leaves is a proper suffix of the input that does not start with a digit,
/// what it took is all digits, and the value is the number those digits denote.
pub proof fn lemma_digit_int_takes_the_run(s: Seq<char>)
    ensures
        match digit_int_of(s) {
            Ok((rest, value)) => {
                &&& is_suffix_of(rest, s)
                &&& rest.len() < s.len()
                &&& is_number(consumed(s, rest))
                &&& (rest.len() > 0 ==> !is_digit(rest[0]))
                &&& value == decimal(consumed(s, rest))
            },
            Err(_) => true,
        },
{
    lemma_run_len_ends(s, digits());
    let k = run_len(s, digits()) as int;
    if k > 0 {
        assert(s.skip(k).len() == s.len() - k);
        assert forall|i: int| 0 <= i < k implies is_digit(#[trigger] s.take(k)[i]) by {
            assert(digits()(s[i]));
        }
        if k < s.len() {
            assert(s.skip(k)[0] == s[k]);
        }
    }
}

/// A suffix of a suffix is a suffix.
proof fn lemma_suffix_chain(a: Seq<char>, b: Seq<char>, c: Seq<char>)
    requires
        is_suffix_of(b, a),
        is_suffix_of(c, b),
    ensures
        is_suffix_of(c, a),
{
    assert(c =~= a.skip(a.len() - c.len()));
}

/// Blank space takes at least one character and stops before the first that
/// is no blank.
pub proof fn lemma_blank_takes_the_run(s: Seq<char>)
    ensures
        blank_of(s) matches Ok(rest) ==> {
            &&& is_suffix_of(rest, s)
            &&& rest.len() < s.len()
            &&& (forall|i: int| 0 <= i < s.len() - rest.len() ==> is_blank(#[trigger] s[i]))
            &&& (rest.len() > 0 ==> !is_blank(rest[0]))
        },
{
    lemma_run_len_ends(s, blanks());
    let k = run_len(s, blanks()) as int;
    if s.len() > 0 && is_blank(s[0]) {
        assert(s.skip(k).len() == s.len() - k);
        assert forall|i: int| 0 <= i < k implies is_blank(#[trigger] s[i]) by {
            assert(blanks()(s[i]));
        }
        if k < s.len() {
            assert(s.skip(k)[0] == s[k]);
        }
    }
}

/// A number with its time separator leaves a proper suffix of the input.
proof fn lemma_time_field_remainder(s: Seq<char>)
    ensures
        digit_int_then_delimiter_of(s) matches Ok((rest, _)) ==> is_suffix_of(rest, s)
            && rest.len() < s.len(),
{
    lemma_digit_int_takes_the_run(s);
    if let Ok((s1, _)) = digit_int_of(s) {
        if let Ok((s2, _)) = time_delimiter_of(s1) {
            lemma_suffix_chain(s, s1, s2);
        }
    }
}

/// The time parser never takes more than a time: what it leaves is a proper
/// suffix of the input, and it does not start with a digit, so the last
/// number was read to its end and nothing behind it was touched.
pub proof fn lemma_time_remainder(s: Seq<char>)
    ensures
        time_of(s) matches Ok((rest, _)) ==> {
            &&& is_suffix_of(rest, s)
            &&& rest.len() < s.len()
            &&& (rest.len() > 0 ==> !is_digit(rest[0]))
        },
{
    lemma_time_field_remainder(s);
    if let Ok((s1, _)) = digit_int_then_delimiter_of(s) {
        lemma_time_field_remainder(s1);
        if let Ok((s2, _)) = digit_int_then_delimiter_of(s1) {
            lemma_time_field_remainder(s2);
            lemma_suffix_chain(s, s1, s2);
            if let Ok((s3, _)) = digit_int_then_delimiter_of(s2) {
                lemma_digit_int_takes_the_run(s3);
                lemma_suffix_chain(s, s2, s3);
                if let Ok((rest, _)) = digit_int_of(s3) {
                    lemma_suffix_chain(s, s3, rest);
                }
            }
        }
    }
}

/// The date parser never takes more than a date: what it leaves is a proper
/// suffix of the input, and it does not start with a digit.
pub proof fn lemma_date_remainder(s: Seq<char>)
    ensures
        date_of(s) matches Ok((rest, _)) ==> {
            &&& is_suffix_of(rest, s)
            &&& rest.len() < s.len()
            &&& (rest.len() > 0 ==> !is_digit(rest[0]))
        },
{
    lemma_digit_int_takes_the_run(s);
    if let Ok((s1, _)) = digit_int_of(s) {
        if let Ok((s2, _)) = delimiter_of(s1, '/') {
            lemma_suffix_chain(s, s1, s2);
            lemma_digit_int_takes_the_run(s2);
            if let Ok((rest, _)) = digit_int_of(s2) {
                lemma_suffix_chain(s, s2, rest);
            }
        }
    }
}

/// The timestamp parser never takes more than a date, blank space and a time:
/// what it leaves is a proper suffix of the input and does not start with a digit.
pub proof fn lemma_timestamp_remainder(s: Seq<char>)
    ensures
        timestamp_of(s) matches Ok((rest, _)) ==> {
            &&& is_suffix_of(rest, s)
            &&& rest.len() < s.len()
            &&& (rest.len() > 0 ==> !is_digit(rest[0]))
        },
{
    lemma_date_remainder(s);
    if let Ok((s1, _)) = date_of(s) {
        lemma_blank_takes_the_run(s1);
        if let Ok(s2) = blank_of(s1) {
            lemma_suffix_chain(s, s1, s2);
            lemma_time_remainder(s2);
            if let Ok((rest, _)) = time_of(s2) {
                lemma_suffix_chain(s, s2, rest);
            }
        }
    }
}

/// The spans of a text, written out again with commas between them, are the
/// text: splitting loses nothing, adds nothing and keeps the order. And no
/// span holds a comma.
pub proof fn lemma_spans_rejoin(s: Seq<char>)
    ensures
        spans_of(s).len() >= 1,
        joined(spans_of(s)) == s,
        forall|i: int, j: int|
            0 <= i < spans_of(s).len() && 0 <= j < spans_of(s)[i].len() ==> #[trigger] spans_of(
                s,
            )[i][j] != ',',
    decreases s.len(),
{
    lemma_run_len_ends(s, field_chars());
    let k = run_len(s, field_chars()) as int;
    if k >= s.len() {
        assert forall|i: int, j: int|
            0 <= i < spans_of(s).len() && 0 <= j < spans_of(s)[i].len() implies #[trigger] spans_of(
            s,
        )[i][j] != ',' by {
            assert(field_chars()(s[j]));
        }
    } else {
        let tail = s.skip(k + 1);
        let head = s.take(k);
        lemma_spans_rejoin(tail);
        let all = spans_of(s);
        assert(all == seq![head] + spans_of(tail));
        assert(all.skip(1) =~= spans_of(tail));
        assert(all[0] == head);
        assert(s[k] == ',');
        assert(joined(all) == head + seq![','] + tail);
        assert(head + seq![','] + tail =~= s);
        assert forall|i: int, j: int|
            0 <= i < all.len() && 0 <= j < all[i].len() implies #[trigger] all[i][j] != ',' by {
            if i == 0 {
                assert(field_chars()(s[j]));
            } else {
                assert(all[i] == spans_of(tail)[i - 1]);
            }
        }
    }
}

/// The field list of a payload, written out again with commas between the
/// fields, is the payload, and no field holds a comma: the field-list parser
/// takes the whole payload and splits it at the commas only.
pub proof fn lemma_fields_rejoin(s: Seq<char>)
    ensures
        joined(fields_of(s)) == s,
        fields_of(s).len() == 0 <==> s.len() == 0,
        forall|i: int, j: int|
            0 <= i < fields_of(s).len() && 0 <= j < fields_of(s)[i].len() ==> #[trigger] fields_of(
                s,
            )[i][j] != ',',
{
    if s.len() > 0 {
        lemma_spans_rejoin(s);
    } else {
        assert(joined(fields_of(s)) =~= s);
    }
}

/// Joining three texts gives the same text whichever two are joined first.
proof fn lemma_concat_nesting(a: Seq<char>, b: Seq<char>, c: Seq<char>)
    ensures
        (a + b) + c == a + (b + c),
{
    assert((a + b) + c =~= a + (b + c));
}

/// A separator in front of a text is taken alone and leaves the text.
proof fn lemma_delimiter_then_tail(c: char, tail: Seq<char>)
    ensures
        delimiter_of(seq![c] + tail, c) == Ok::<_, ParseError>((tail, c)),
        c == ':' || c == '.' ==> time_delimiter_of(seq![c] + tail) == Ok::<_, ParseError>(
            (tail, c),
        ),
{
    assert((seq![c] + tail).skip(1) =~= tail);
}

/// A number and a time separator in front of a text are taken together and
/// leave the text.
proof fn lemma_time_field_then_tail(number: Seq<char>, c: char, tail: Seq<char>)
    requires
        is_number(number) && decimal(number) <= u16::MAX,
        c == ':' || c == '.',
    ensures
        digit_int_then_delimiter_of(number + seq![c] + tail) == Ok::<_, ParseError>(
            (tail, decimal(number) as u16),
        ),
{
    let after = seq![c] + tail;
    assert(after[0] == c);
    assert(number + seq![c] + tail =~= number + after);
    lemma_number_then_tail(number, after);
    lemma_delimiter_then_tail(c, tail);
}

/// A run of blanks in front of a text that does not itself start with a
/// blank is taken whole and leaves the text.
pub proof fn lemma_blank_then_tail(gap: Seq<char>, tail: Seq<char>)
    requires
        gap.len() > 0,
        forall|i: int| 0 <= i < gap.len() ==> is_blank(#[trigger] gap[i]),
        tail.len() == 0 || !is_blank(tail[0]),
    ensures
        blank_of(gap + tail) == Ok::<_, ParseError>(tail),
{
    let s = gap + tail;
    let k = gap.len() as int;
    assert(s[0] == gap[0]);
    assert forall|i: int| 0 <= i < k implies blanks()(#[trigger] s[i]) by {
        assert(s[i] == gap[i]);
    }
    if k < s.len() {
        assert(s[k] == tail[0]);
    }
    lemma_run_len_unique(s, blanks(), k);
    assert(s.skip(k) =~= tail);
}

/// A date written as two numbers that fit in 16 bits with a slash between
/// them, followed by something that does not go on with a digit, parses to
/// those two numbers and leaves what follows.
pub proof fn lemma_date_then_tail(month: Seq<char>, day: Seq<char>, tail: Seq<char>)
    requires
        is_number(month) && decimal(month) <= u16::MAX,
        is_number(day) && decimal(day) <= u16::MAX,
        tail.len() == 0 || !is_digit(tail[0]),
    ensures
        date_of(month + seq!['/'] + day + tail) == Ok::<_, ParseError>(
            (tail, Date { month: decimal(month) as u16, day: decimal(day) as u16 }),
        ),
{
    let t2 = day + tail;
    let t1 = seq!['/'] + t2;
    assert(month + seq!['/'] + day + tail =~= month + t1);
    assert(t1[0] == '/');
    lemma_number_then_tail(month, t1);
    lemma_delimiter_then_tail('/', t2);
    lemma_number_then_tail(day, tail);
}

/// A time written as four numbers that fit in 16 bits, with a colon or a full
/// stop after each of the first three (each place chosen freely), followed by
/// something that does not go on with a digit, parses to those four numbers
/// in the order written and leaves what follows.
pub proof fn lemma_time_then_tail(
    hour: Seq<char>,
    c1: char,
    minute: Seq<char>,
    c2: char,
    second: Seq<char>,
    c3: char,
    millisecond: Seq<char>,
    tail: Seq<char>,
)
    requires
        is_number(hour) && decimal(hour) <= u16::MAX,
        is_number(minute) && decimal(minute) <= u16::MAX,
        is_number(second) && decimal(second) <= u16::MAX,
        is_number(millisecond) && decimal(millisecond) <= u16::MAX,
        c1 == ':' || c1 == '.',
        c2 == ':' || c2 == '.',
        c3 == ':' || c3 == '.',
        tail.len() == 0 || !is_digit(tail[0]),
    ensures
        time_of(hour + seq![c1] + minute + seq![c2] + second + seq![c3] + millisecond + tail)
            == Ok::<_, ParseError>(
            (
                tail,
                Time {
                    hour: decimal(hour) as u16,
                    minute: decimal(minute) as u16,
                    second: decimal(second) as u16,
                    millisecond: decimal(millisecond) as u16,
                },
            ),
        ),
{
    let t3 = millisecond + tail;
    let t2 = second + seq![c3] + t3;
    let t1 = minute + seq![c2] + t2;
    let t0 = hour + seq![c1] + t1;
    let p1 = hour + seq![c1];
    let p2 = p1 + minute;
    let p3 = p2 + seq![c2];
    let p4 = p3 + second;
    let p5 = p4 + seq![c3];
    lemma_concat_nesting(p5, millisecond, tail);
    lemma_concat_nesting(p4, seq![c3], t3);
    lemma_concat_nesting(second, seq![c3], t3);
    lemma_concat_nesting(p3, second, seq![c3] + t3);
    lemma_concat_nesting(p2, seq![c2], t2);
    lemma_concat_nesting(minute, seq![c2], t2);
    lemma_concat_nesting(p1, minute, seq![c2] + t2);
    assert(t0 == p5 + millisecond + tail);
    lemma_time_field_then_tail(hour, c1, t1);
    lemma_time_field_then_tail(minute, c2, t2);
    lemma_time_field_then_tail(second, c3, t3);
    lemma_number_then_tail(millisecond, tail);
}

/// A well-formed timestamp parses to the numbers it was written with: for
/// six numbers that each fit in 16 bits, set out as month, slash, day, space,
/// hour, colon, minute, colon, second, full stop, millisecond, space and any
/// payload, the timestamp parser succeeds, returns exactly those six values,
/// and leaves the space and the payload.
pub proof fn lemma_well_formed_timestamp(
    month: Seq<char>,
    day: Seq<char>,
    hour: Seq<char>,
    minute: Seq<char>,
    second: Seq<char>,
    millisecond: Seq<char>,
    payload: Seq<char>,
)
    requires
        is_number(month) && decimal(month) <= u16::MAX,
        is_number(day) && decimal(day) <= u16::MAX,
        is_number(hour) && decimal(hour) <= u16::MAX,
        is_number(minute) && decimal(minute) <= u16::MAX,
        is_number(second) && decimal(second) <= u16::MAX,
        is_number(millisecond) && decimal(millisecond) <= u16::MAX,
    ensures
        timestamp_of(line_text(month, day, hour, minute, second, millisecond, payload)) == Ok::<
            _,
            ParseError,
        >(
            (
                seq![' '] + payload,
                (
                    Date { month: decimal(month) as u16, day: decimal(day) as u16 },
                    Time {
                        hour: decimal(hour) as u16,
                        minute: decimal(minute) as u16,
                        second: decimal(second) as u16,
                        millisecond: decimal(millisecond) as u16,
                    },
                ),
            ),
        ),
{
    let after_time = seq![' '] + payload;
    let time_on = hour + seq![':'] + minute + seq![':'] + second + seq!['.'] + millisecond
        + after_time;
    let after_date = seq![' '] + time_on;
    let line = month + seq!['/'] + day + after_date;
    assert(line =~= line_text(month, day, hour, minute, second, millisecond, payload));
    assert(after_date[0] == ' ');
    lemma_date_then_tail(month, day, after_date);
    assert(time_on[0] == hour[0] && is_digit(hour[0]));
    lemma_blank_then_tail(seq![' '], time_on);
    assert(after_time[0] == ' ');
    lemma_time_then_tail(hour, ':', minute, ':', second, '.', millisecond, after_time);
}

/// A well-formed line parses to the numbers and the payload it was written
/// with: for six numbers that each fit in 16 bits, set out as in
/// [`line_text`], and a payload that does not itself start with a blank, the
/// line parser succeeds, returns exactly those six values and the field list
/// of the payload, and leaves nothing.
pub proof fn lemma_well_formed_line(
    month: Seq<char>,
    day: Seq<char>,
    hour: Seq<char>,
    minute: Seq<char>,
    second: Seq<char>,
    millisecond: Seq<char>,
    payload: Seq<char>,
)
    requires
        is_number(month) && decimal(month) <= u16::MAX,
        is_number(day) && decimal(day) <= u16::MAX,
        is_number(hour) && decimal(hour) <= u16::MAX,
        is_number(minute) && decimal(minute) <= u16::MAX,
        is_number(second) && decimal(second) <= u16::MAX,
        is_number(millisecond) && decimal(millisecond) <= u16::MAX,
        payload.len() == 0 || !is_blank(payload[0]),
    ensures
        line_of(line_text(month, day, hour, minute, second, millisecond, payload)) == Ok::<
            _,
            ParseError,
        >(
            (
                Seq::<char>::empty(),
                (
                    Date { month: decimal(month) as u16, day: decimal(day) as u16 },
                    Time {
                        hour: decimal(hour) as u16,
                        minute: decimal(minute) as u16,
                        second: decimal(second) as u16,
                        millisecond: decimal(millisecond) as u16,
                    },
                    fields_of(payload),
                ),
            ),
        ),
{
    lemma_well_formed_timestamp(month, day, hour, minute, second, millisecond, payload);
    lemma_blank_then_tail(seq![' '], payload);
}

} // verus!
