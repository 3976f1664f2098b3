//! Unsigned decimal literals.
use vstd::prelude::*;
use crate::failure::{Failure, ParseFailure};
use crate::text::string_of;

verus! {

/// The decimal digits `0` to `9`.
pub open spec fn is_digit(c: char) -> bool {
    '0' <= c <= '9'
}

/// The number a digit stands for.
pub open spec fn digit_value(c: char) -> nat {
    (c as nat - '0' as nat) as nat
}

/// Every character of `text` is a decimal digit.
pub open spec fn all_digits(text: Seq<char>) -> bool {
    forall|i: int| 0 <= i < text.len() ==> is_digit(#[trigger] text[i])
}

/// The number that `text` denotes when read as decimal digits, most
/// significant first. Leading zeros do not change it.
pub open spec fn decimal_value(text: Seq<char>) -> nat
    decreases text.len(),
{
    if text.len() == 0 {
        0
    } else {
        decimal_value(text.drop_last()) * 10 + digit_value(text.last())
    }
}

/// The unsigned 64-bit integer that `text` denotes, if it denotes one: `text`
/// is a non-empty run of digits, with no sign, prefix or separator, and its
/// value is at most 2^64 - 1.
pub open spec fn uint_of(text: Seq<char>) -> Option<nat> {
    if text.len() > 0 && all_digits(text) && decimal_value(text) <= u64::MAX {
        Some(decimal_value(text))
    } else {
        None
    }
}

/// The value of a run of digits is at least the value of each of its prefixes.
pub proof fn lemma_decimal_value_grows(text: Seq<char>, k: int)
    requires
        0 <= k <= text.len(),
    ensures
        decimal_value(text.take(k)) <= decimal_value(text),
    decreases text.len(),
{
    if k < text.len() {
        lemma_decimal_value_grows(text.drop_last(), k);
        assert(text.drop_last().take(k) =~= text.take(k));
    } else {
        assert(text.take(k) =~= text);
    }
}

/// Tells whether `c` is a decimal digit.
pub fn is_decimal_digit(c: char) -> (yes: bool)
    ensures
        yes == is_digit(c),
{
    '0' <= c && c <= '9'
}

/// Reads `text` as an unsigned 64-bit decimal integer. It fails, handing the
/// text back, exactly when the text is empty, holds anything but digits, or
/// denotes a number above 2^64 - 1.
pub fn parse_uint(text: &Vec<char>) -> (result: Result<u64, ParseFailure>)
    ensures
        match result {
            Ok(n) => uint_of(text@) == Some(n as nat),
            Err(failure) => uint_of(text@) is None && failure@ == (Failure::NumericOverflowOrFormat {
                text: text@,
            }),
        },
{
    let mut valid = text.len() > 0;
    let mut total: u64 = 0;
    let mut i: usize = 0;
    while valid && i < text.len()
        invariant
            i <= text.len(),
            valid ==> text.len() > 0 && all_digits(text@.take(i as int)) && total == decimal_value(
                text@.take(i as int),
            ),
            !valid ==> uint_of(text@) is None,
        decreases text.len() - i + if valid { 1nat } else { 0nat },
    {
        let c = text[i];
        proof {
            assert(text@.take(i + 1).drop_last() =~= text@.take(i as int));
            lemma_decimal_value_grows(text@, i + 1);
        }
        if !is_decimal_digit(c) {
            valid = false;
        } else {
            let d: u64 = (c as u32 - '0' as u32) as u64;
            if total > (u64::MAX - d) / 10 {
                valid = false;
            } else {
                total = total * 10 + d;
                i += 1;
            }
        }
    }
    if valid {
        proof {
            assert(text@.take(i as int) =~= text@);
        }
        Ok(total)
    } else {
        Err(ParseFailure::NumericOverflowOrFormat(string_of(text)))
    }
}

} // verus!
