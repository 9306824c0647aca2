//! Why a sampling call fails, and how the failure reads.

use vstd::prelude::*;

verus! {

/// Why a sampling call fails.
#[derive(Debug, Clone, Copy, PartialEq, Eq)]
pub enum SampleError {
    /// The data holds fewer than two newlines, so no range of probes can be
    /// set up.
    NoNewlines,
    /// A probe drawn from the sampling range did not resolve to a line. This
    /// cannot happen with a range that `last_valid_offset` computed for the
    /// same data.
    Internal,
    /// Sampling without replacement gave up after `found` lines, short of the
    /// `requested` ones.
    Exhausted { requested: usize, found: usize },
}

/// The character that stands for `digit`, which is below ten.
pub open spec fn digit_char(digit: nat) -> char {
    if digit == 0 {
        '0'
    } else if digit == 1 {
        '1'
    } else if digit == 2 {
        '2'
    } else if digit == 3 {
        '3'
    } else if digit == 4 {
        '4'
    } else if digit == 5 {
        '5'
    } else if digit == 6 {
        '6'
    } else if digit == 7 {
        '7'
    } else if digit == 8 {
        '8'
    } else {
        '9'
    }
}

/// `number` in decimal digits, without leading zeros.
pub open spec fn decimal(number: nat) -> Seq<char>
    decreases number,
{
    if number < 10 {
        seq![digit_char(number)]
    } else {
        decimal(number / 10).push(digit_char(number % 10))
    }
}

/// How `error` reads.
pub open spec fn message_text(error: SampleError) -> Seq<char> {
    match error {
        SampleError::NoNewlines => "file has no newlines"@,
        SampleError::Internal => "internal error"@,
        SampleError::Exhausted { requested, found } => "cannot sample "@ + decimal(requested as nat)
            + " unique lines from file with only "@ + decimal(found as nat) + " lines"@,
    }
}

/// `String::push_str` appends the characters of `more` to `text`.
#[verifier::external_body]
fn append(text: &mut String, more: &str)
    ensures
        final(text)@ == old(text)@ + more@,
{
    text.push_str(more)
}

/// `String::push` appends the character `one` to `text`.
#[verifier::external_body]
fn append_char(text: &mut String, one: char)
    ensures
        final(text)@ == old(text)@.push(one),
{
    text.push(one)
}

/// Appends `number` in decimal digits to `text`.
pub fn append_decimal(text: &mut String, number: usize)
    ensures
        final(text)@ == old(text)@ + decimal(number as nat),
    decreases number,
{
    let ghost before = text@;
    if number >= 10 {
        append_decimal(text, number / 10);
    }
    let digit: usize = number % 10;
    let one: char = if digit == 0 {
        '0'
    } else if digit == 1 {
        '1'
    } else if digit == 2 {
        '2'
    } else if digit == 3 {
        '3'
    } else if digit == 4 {
        '4'
    } else if digit == 5 {
        '5'
    } else if digit == 6 {
        '6'
    } else if digit == 7 {
        '7'
    } else if digit == 8 {
        '8'
    } else {
        '9'
    };
    append_char(text, one);
    proof {
        if number >= 10 {
            assert((before + decimal((number / 10) as nat)).push(one) == before + decimal(
                (number / 10) as nat,
            ).push(one));
        } else {
            assert(before.push(one) == before + seq![one]);
        }
    }
}

impl SampleError {
    /// The text that tells a user of the failure.
    pub fn message(&self) -> (text: String)
        ensures
            text@ == message_text(*self),
    {
        let mut text = String::new();
        match self {
            SampleError::NoNewlines => {
                append(&mut text, "file has no newlines");
            },
            SampleError::Internal => {
                append(&mut text, "internal error");
            },
            SampleError::Exhausted { requested, found } => {
                append(&mut text, "cannot sample ");
                append_decimal(&mut text, *requested);
                append(&mut text, " unique lines from file with only ");
                append_decimal(&mut text, *found);
                append(&mut text, " lines");
            },
        }
        proof {
            assert(Seq::<char>::empty() + "file has no newlines"@ == "file has no newlines"@);
            assert(Seq::<char>::empty() + "internal error"@ == "internal error"@);
            assert(Seq::<char>::empty() + "cannot sample "@ == "cannot sample "@);
        }
        text
    }
}

} // verus!
