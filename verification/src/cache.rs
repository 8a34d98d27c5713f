//! A counter kept as decimal text in a file.
use vstd::prelude::*;
use crate::error::{Error, IntErrorKind};
use crate::text::{
    all_digits, chars_all_digits, chars_of, decimal, decimal_of, parse_usize, parse_usize_of,
    string_of, unsigned_digits,
};

verus! {

/// Why `from_str` of an unsigned integer type rejects `s`.
pub open spec fn unsigned_error(s: Seq<char>) -> IntErrorKind {
    if s.len() == 0 {
        IntErrorKind::Empty
    } else if unsigned_digits(s).len() == 0 || !all_digits(unsigned_digits(s)) {
        IntErrorKind::InvalidDigit
    } else {
        IntErrorKind::PosOverflow
    }
}

/// The counter a file's text holds.
pub fn parse_value(text: &str) -> (r: Result<usize, Error>)
    ensures
        match parse_usize(text@) {
            Some(v) => r == Ok::<usize, Error>(v),
            None => r == Err::<usize, Error>(Error::ParseIntError(unsigned_error(text@))),
        },
{
    let t = chars_of(text);
    match parse_usize_of(t.as_slice()) {
        Some(v) => Ok(v),
        None => {
            if t.len() == 0 {
                Err(Error::ParseIntError(IntErrorKind::Empty))
            } else {
                let d = if t[0] == '+' {
                    crate::text::chars_slice(t.as_slice(), 1, t.len())
                } else {
                    crate::text::chars_slice(t.as_slice(), 0, t.len())
                };
                assert(d@ =~= unsigned_digits(text@));
                if d.len() == 0 || !chars_all_digits(d.as_slice()) {
                    Err(Error::ParseIntError(IntErrorKind::InvalidDigit))
                } else {
                    Err(Error::ParseIntError(IntErrorKind::PosOverflow))
                }
            }
        },
    }
}

/// The text of a new counter.
pub fn initial_text() -> (r: String)
    ensures
        r@ == decimal(1),
{
    let d = decimal_of(1);
    string_of(d.as_slice())
}

/// The text of the counter after adding `value` to `old`.
pub fn added_text(old: usize, value: usize) -> (r: String)
    requires
        old + value <= usize::MAX,
    ensures
        r@ == decimal((old + value) as nat),
{
    let d = decimal_of((old + value) as u128);
    string_of(d.as_slice())
}

/// What `add` writes, `get` reads back: the text of the counter after
/// adding `value` to `old` holds `old + value`.
pub proof fn lemma_added_value_reads_back(old: usize, value: usize)
    requires
        old + value <= usize::MAX,
    ensures
        parse_usize(decimal((old + value) as nat)) == Some((old + value) as usize),
{
    crate::text::lemma_decimal_roundtrip((old + value) as nat);
}

/// A new counter reads as 1.
pub proof fn lemma_initial_value_reads_back()
    ensures
        parse_usize(decimal(1)) == Some(1usize),
{
    crate::text::lemma_decimal_roundtrip(1);
}

} // verus!
