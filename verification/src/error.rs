//! Why a sum could not be computed.

use crate::text::{decimal_digits, push_decimal};
use vstd::prelude::*;
use vstd::string::StringExecFns;

verus! {

/// The failure of a digit sum. No number stands in for a failed sum.
#[derive(Debug, Clone, Copy, PartialEq, Eq, Structural)]
pub enum SumError {
    /// The segment at index `segment` holds `character`, which is no decimal
    /// digit.
    InvalidCharacter { segment: usize, character: char },
    /// The digits add up to more than a `u32` holds.
    Overflow,
}

impl SumError {
    /// The words in which the failure is reported.
    pub open spec fn spec_message(self) -> Seq<char> {
        match self {
            SumError::InvalidCharacter { segment, character } => {
                "cannot compute sum: invalid character `"@.push(character)
                    + "` in input segment "@ + decimal_digits(segment as nat)
            },
            SumError::Overflow => "cannot compute sum: the total does not fit in 32 bits"@,
        }
    }

    /// Reports the failure in words.
    pub fn message(&self) -> (text: String)
        ensures
            text@ == self.spec_message(),
    {
        match *self {
            SumError::InvalidCharacter { segment, character } => {
                let mut text = String::from_str("cannot compute sum: invalid character `");
                text.push(character);
                text.append("` in input segment ");
                push_decimal(&mut text, segment);
                text
            },
            SumError::Overflow => String::from_str(
                "cannot compute sum: the total does not fit in 32 bits",
            ),
        }
    }
}

} // verus!
