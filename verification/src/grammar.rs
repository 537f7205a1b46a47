//! The grammar as spec functions on `Seq<char>`. Every parser's contract says
//! that its result is the value of one of these on the view of its input.

use vstd::prelude::*;
use crate::record::{Date, ParseError, Time};

verus! {

/// An ASCII decimal digit.
pub open spec fn is_digit(c: char) -> bool {
    '0' <= c && c <= '9'
}

/// A space or a horizontal tab.
pub open spec fn is_blank(c: char) -> bool {
    c == ' ' || c == '\t'
}

/// The class of decimal digits.
pub open spec fn digits() -> spec_fn(char) -> bool {
    |c: char| is_digit(c)
}

/// The class of blanks.
pub open spec fn blanks() -> spec_fn(char) -> bool {
    |c: char| is_blank(c)
}

/// The class of characters a field may hold: everything but the comma.
pub open spec fn field_chars() -> spec_fn(char) -> bool {
    |c: char| c != ','
}

/// Length of the longest prefix of `s` whose characters all belong to `class`.
pub open spec fn run_len(s: Seq<char>, class: spec_fn(char) -> bool) -> nat
    decreases s.len(),
{
    if s.len() > 0 && class(s[0]) {
        1 + run_len(s.skip(1), class)
    } else {
        0
    }
}

/// `k` is where the leading run of `class` in `s` ends: everything before `k`
/// belongs to the class, and `s` ends at `k` or goes on with a character outside it.
pub open spec fn run_ends_at(s: Seq<char>, class: spec_fn(char) -> bool, k: int) -> bool {
    &&& 0 <= k <= s.len()
    &&& forall|i: int| 0 <= i < k ==> class(#[trigger] s[i])
    &&& (k < s.len() ==> !class(s[k]))
}

/// The number a digit stands for.
pub open spec fn digit_value(c: char) -> nat {
    (c as nat - '0' as nat) as nat
}

/// The number that a sequence of digits denotes in base ten; 0 for the empty sequence.
pub open spec fn decimal(s: Seq<char>) -> nat
    decreases s.len(),
{
    if s.len() == 0 {
        0
    } else {
        decimal(s.drop_last()) * 10 + digit_value(s.last())
    }
}

/// An unsigned number: the longest leading run of digits, which must not be
/// empty and must denote a value that fits in 16 bits.
pub open spec fn digit_int_of(s: Seq<char>) -> Result<(Seq<char>, u16), ParseError> {
    let k = run_len(s, digits()) as int;
    if k == 0 {
        Err(ParseError::NoDigits)
    } else if decimal(s.take(k)) > u16::MAX {
        Err(ParseError::NumericOverflow)
    } else {
        Ok((s.skip(k), decimal(s.take(k)) as u16))
    }
}

/// One given separator character.
pub open spec fn delimiter_of(s: Seq<char>, c: char) -> Result<(Seq<char>, char), ParseError> {
    if s.len() > 0 && s[0] == c {
        Ok((s.skip(1), c))
    } else {
        Err(ParseError::UnexpectedDelimiter)
    }
}

/// One separator between the fields of a time: a colon or a full stop.
pub open spec fn time_delimiter_of(s: Seq<char>) -> Result<(Seq<char>, char), ParseError> {
    if s.len() > 0 && (s[0] == ':' || s[0] == '.') {
        Ok((s.skip(1), s[0]))
    } else {
        Err(ParseError::UnexpectedDelimiter)
    }
}

/// The blank space that must stand between two parts of a line: one or more blanks.
pub open spec fn blank_of(s: Seq<char>) -> Result<Seq<char>, ParseError> {
    if s.len() == 0 {
        Err(ParseError::IncompleteLine)
    } else if !is_blank(s[0]) {
        Err(ParseError::MissingWhitespace)
    } else {
        Ok(s.skip(run_len(s, blanks()) as int))
    }
}

/// A number followed by a time separator.
pub open spec fn digit_int_then_delimiter_of(s: Seq<char>) -> Result<(Seq<char>, u16), ParseError> {
    match digit_int_of(s) {
        Err(e) => Err(e),
        Ok((rest, value)) => match time_delimiter_of(rest) {
            Err(e) => Err(e),
            Ok((rest, _)) => Ok((rest, value)),
        },
    }
}

/// A time: four numbers with a colon or a full stop after each of the first three.
pub open spec fn time_of(s: Seq<char>) -> Result<(Seq<char>, Time), ParseError> {
    match digit_int_then_delimiter_of(s) {
        Err(e) => Err(e),
        Ok((s1, hour)) => match digit_int_then_delimiter_of(s1) {
            Err(e) => Err(e),
            Ok((s2, minute)) => match digit_int_then_delimiter_of(s2) {
                Err(e) => Err(e),
                Ok((s3, second)) => match digit_int_of(s3) {
                    Err(e) => Err(e),
                    Ok((rest, millisecond)) => Ok(
                        (rest, Time { hour, minute, second, millisecond }),
                    ),
                },
            },
        },
    }
}

/// A date: two numbers with a slash between them.
pub open spec fn date_of(s: Seq<char>) -> Result<(Seq<char>, Date), ParseError> {
    match digit_int_of(s) {
        Err(e) => Err(e),
        Ok((s1, month)) => match delimiter_of(s1, '/') {
            Err(e) => Err(e),
            Ok((s2, _)) => match digit_int_of(s2) {
                Err(e) => Err(e),
                Ok((rest, day)) => Ok((rest, Date { month, day })),
            },
        },
    }
}

/// The spans of a text that holds at least one span: what stands before the
/// first comma, then the spans of what follows that comma. A text without a
/// comma is one span, the empty text included.
pub open spec fn spans_of(s: Seq<char>) -> Seq<Seq<char>>
    decreases s.len(),
{
    let k = run_len(s, field_chars()) as int;
    if k >= s.len() {
        seq![s]
    } else {
        seq![s.take(k)] + spans_of(s.skip(k + 1))
    }
}

/// The field list of a payload: no field for the empty payload, else its spans.
pub open spec fn fields_of(s: Seq<char>) -> Seq<Seq<char>> {
    if s.len() == 0 {
        Seq::empty()
    } else {
        spans_of(s)
    }
}

/// A date, blank space and a time.
pub open spec fn timestamp_of(s: Seq<char>) -> Result<(Seq<char>, (Date, Time)), ParseError> {
    match date_of(s) {
        Err(e) => Err(e),
        Ok((s1, date)) => match blank_of(s1) {
            Err(e) => Err(e),
            Ok(s2) => match time_of(s2) {
                Err(e) => Err(e),
                Ok((rest, time)) => Ok((rest, (date, time))),
            },
        },
    }
}

/// A whole line: a timestamp, blank space, and the payload as a field list.
/// The field list takes all that is left, so nothing remains.
pub open spec fn line_of(s: Seq<char>) -> Result<
    (Seq<char>, (Date, Time, Seq<Seq<char>>)),
    ParseError,
> {
    match timestamp_of(s) {
        Err(e) => Err(e),
        Ok((s1, (date, time))) => match blank_of(s1) {
            Err(e) => Err(e),
            Ok(payload) => Ok((Seq::empty(), (date, time, fields_of(payload)))),
        },
    }
}

/// The views of a list of text spans.
pub open spec fn views(spans: Seq<&str>) -> Seq<Seq<char>> {
    Seq::new(spans.len(), |i: int| spans[i]@)
}

/// The leading run of `class` in `s` ends at `k` only if `k` is its length.
pub proof fn lemma_run_len_unique(s: Seq<char>, class: spec_fn(char) -> bool, k: int)
    requires
        run_ends_at(s, class, k),
    ensures
        run_len(s, class) == k,
    decreases k,
{
    if k > 0 {
        assert(class(s[0]));
        let t = s.skip(1);
        assert forall|i: int| 0 <= i < k - 1 implies class(#[trigger] t[i]) by {
            assert(t[i] == s[i + 1]);
        }
        lemma_run_len_unique(t, class, k - 1);
    }
}

/// The leading run of `class` in `s` does end at `run_len(s, class)`.
pub proof fn lemma_run_len_ends(s: Seq<char>, class: spec_fn(char) -> bool)
    ensures
        run_ends_at(s, class, run_len(s, class) as int),
    decreases s.len(),
{
    if s.len() > 0 && class(s[0]) {
        let t = s.skip(1);
        lemma_run_len_ends(t, class);
        let k = run_len(s, class) as int;
        assert forall|i: int| 0 <= i < k implies class(#[trigger] s[i]) by {
            if i > 0 {
                assert(s[i] == t[i - 1]);
            }
        }
        if k < s.len() {
            assert(s[k] == t[k - 1]);
        }
    }
}

/// A prefix of a digit sequence denotes no more than the whole sequence.
pub proof fn lemma_decimal_prefix(s: Seq<char>, n: int)
    requires
        0 <= n <= s.len(),
    ensures
        decimal(s.take(n)) <= decimal(s),
    decreases s.len() - n,
{
    if n == s.len() {
        assert(s.take(n) =~= s);
    } else {
        lemma_decimal_prefix(s, n + 1);
        assert(s.take(n + 1).drop_last() =~= s.take(n));
    }
}

} // verus!
