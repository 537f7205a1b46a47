//! The primitive scanners: a number, a separator character, blank space, and
//! the calls into `nom` that find where a run of characters ends.

use vstd::prelude::*;
use vstd::string::*;
use vstd::utf8::is_ascii_chars;
use crate::grammar::{
    blank_of, blanks, decimal, delimiter_of, digit_int_of, digits, is_blank, is_digit,
    lemma_decimal_prefix, lemma_run_len_unique, run_ends_at, run_len, time_delimiter_of,
};
use crate::record::ParseError;

verus! {

/// `nom::character::complete::digit0` on a `&str`: splits the input where its
/// leading run of ASCII decimal digits ends and hands back what follows the
/// run, then the run itself. On a `&str` it never fails, so the result is
/// always `Some`; the run may be empty.
#[verifier::external_body]
fn digit_run<'a>(input: &'a str) -> (res: Option<(&'a str, &'a str)>)
    ensures
        res.is_some(),
        input@ == res.unwrap().1@ + res.unwrap().0@,
        run_ends_at(input@, digits(), res.unwrap().1@.len() as int),
{
    match nom::character::complete::digit0::<&str, ()>(input) {
        Ok((rest, run)) => Some((rest, run)),
        Err(_) => None,
    }
}

/// A number at the start of `input`: the longest run of decimal digits, read
/// in base ten. Fails with `NoDigits` where the input starts with no digit and
/// with `NumericOverflow` where the run denotes more than `u16::MAX`; else
/// returns what follows the run, and the number.
pub fn parse_digit_int<'a>(input: &'a str) -> (res: Result<(&'a str, u16), ParseError>)
    ensures
        match res {
            Ok((rest, value)) => digit_int_of(input@) == Ok::<_, ParseError>((rest@, value)),
            Err(e) => digit_int_of(input@) == Err::<(Seq<char>, u16), _>(e),
        },
{
    let (rest, run) = match digit_run(input) {
        Some(split) => split,
        None => { return Err(ParseError::NoDigits); },
    };
    let n: usize = run.unicode_len();
    proof {
        lemma_run_len_unique(input@, digits(), n as int);
        assert(input@.take(n as int) =~= run@);
        assert(input@.skip(n as int) =~= rest@);
        assert(is_ascii_chars(run@)) by {
            assert forall|i: int| 0 <= i < run@.len() implies '\0' <= #[trigger] run@[i]
                <= '\u{7f}' by {
                assert(input@[i] == run@[i]);
                assert(digits()(input@[i]));
            }
        }
    }
    if n == 0 {
        return Err(ParseError::NoDigits);
    }
    let mut value: u32 = 0;
    let mut i: usize = 0;
    while i < n
        invariant
            0 <= i <= n,
            n == run@.len(),
            run_len(input@, digits()) == n,
            input@.take(n as int) == run@,
            run.is_ascii(),
            forall|j: int| 0 <= j < n ==> is_digit(#[trigger] run@[j]),
            value == decimal(run@.take(i as int)),
            value <= u16::MAX,
        decreases n - i,
    {
        let d: u8 = run.get_ascii(i);
        proof {
            assert(run@.take(i + 1).drop_last() =~= run@.take(i as int));
            assert(run@.take(i + 1).last() == run@[i as int]);
            assert(is_digit(run@[i as int]));
        }
        value = value * 10 + (d - 48) as u32;
        i = i + 1;
        if value > 65535 {
            proof {
                lemma_decimal_prefix(run@, i as int);
            }
            return Err(ParseError::NumericOverflow);
        }
    }
    proof {
        assert(run@.take(n as int) =~= run@);
    }
    Ok((rest, value as u16))
}

/// `nom::character::complete::char` on a `&str`: where the input starts with
/// `c`, what follows that one character; `None` where the input is empty or
/// starts with another character.
#[verifier::external_body]
fn leading_char<'a>(input: &'a str, c: char) -> (res: Option<&'a str>)
    ensures
        match res {
            Some(rest) => input@.len() > 0 && input@[0] == c && rest@ == input@.skip(1),
            None => input@.len() == 0 || input@[0] != c,
        },
{
    match nom::character::complete::char::<&str, ()>(c)(input) {
        Ok((rest, _)) => Some(rest),
        Err(_) => None,
    }
}

/// `nom::character::complete::space1` on a `&str`: where the input starts with
/// a space or a tab, splits it where the leading run of spaces and tabs ends
/// and hands back what follows the run, then the run; `None` where the input
/// is empty or starts with another character.
#[verifier::external_body]
fn blank_run<'a>(input: &'a str) -> (res: Option<(&'a str, &'a str)>)
    ensures
        match res {
            Some((rest, run)) => run@.len() > 0 && input@ == run@ + rest@ && run_ends_at(input@, blanks(), run@.len() as int),
            None => input@.len() == 0 || !is_blank(input@[0]),
        },
{
    match nom::character::complete::space1::<&str, ()>(input) {
        Ok((rest, run)) => Some((rest, run)),
        Err(_) => None,
    }
}

/// `nom::bytes::complete::is_not` on a `&str`, with the characters of `stops`
/// as the ones to stop at: where the input starts with a character that is
/// not among them, splits it before the first that is (or at its end) and
/// hands back what follows the run, then the run; `None` where the input is
/// empty or starts with one of them.
#[verifier::external_body]
pub(crate) fn run_before<'a>(input: &'a str, stops: &str) -> (res: Option<(&'a str, &'a str)>)
    ensures
        match res {
            Some((rest, run)) => run@.len() > 0 && input@ == run@ + rest@ && run_ends_at(input@, |c: char| !stops@.contains(c), run@.len() as int),
            None => input@.len() == 0 || stops@.contains(input@[0]),
        },
{
    match nom::bytes::complete::is_not::<&str, &str, ()>(stops)(input) {
        Ok((rest, run)) => Some((rest, run)),
        Err(_) => None,
    }
}

/// The separator `c` at the start of `input`: consumes exactly that one
/// character. Fails with `UnexpectedDelimiter`, having consumed nothing, where
/// the input is empty or starts with another character.
pub fn delimiter<'a>(input: &'a str, c: char) -> (res: Result<(&'a str, char), ParseError>)
    ensures
        match res {
            Ok((rest, found)) => delimiter_of(input@, c) == Ok::<_, ParseError>((rest@, found)),
            Err(e) => delimiter_of(input@, c) == Err::<(Seq<char>, char), _>(e),
        },
{
    match leading_char(input, c) {
        Some(rest) => Ok((rest, c)),
        None => Err(ParseError::UnexpectedDelimiter),
    }
}

/// A separator between the fields of a time, a colon or a full stop, at the
/// start of `input`: consumes exactly that one character and returns it.
/// Fails with `UnexpectedDelimiter`, having consumed nothing, where the input
/// is empty or starts with another character.
pub fn time_delimiter<'a>(input: &'a str) -> (res: Result<(&'a str, char), ParseError>)
    ensures
        match res {
            Ok((rest, found)) => time_delimiter_of(input@) == Ok::<_, ParseError>((rest@, found)),
            Err(e) => time_delimiter_of(input@) == Err::<(Seq<char>, char), _>(e),
        },
{
    match leading_char(input, ':') {
        Some(rest) => Ok((rest, ':')),
        None => match leading_char(input, '.') {
            Some(rest) => Ok((rest, '.')),
            None => Err(ParseError::UnexpectedDelimiter),
        },
    }
}

/// The blank space between two parts of a line: consumes the longest leading
/// run of spaces and tabs, which must not be empty. Fails with
/// `IncompleteLine` where the input is empty and with `MissingWhitespace`
/// where it starts with another character.
pub fn whitespace<'a>(input: &'a str) -> (res: Result<&'a str, ParseError>)
    ensures
        match res {
            Ok(rest) => blank_of(input@) == Ok::<_, ParseError>(rest@),
            Err(e) => blank_of(input@) == Err::<Seq<char>, _>(e),
        },
{
    match blank_run(input) {
        Some((rest, run)) => {
            proof {
                lemma_run_len_unique(input@, blanks(), run@.len() as int);
                assert(input@.skip(run@.len() as int) =~= rest@);
            }
            Ok(rest)
        },
        None => {
            if input.is_empty() {
                Err(ParseError::IncompleteLine)
            } else {
                Err(ParseError::MissingWhitespace)
            }
        },
    }
}

} // verus!
