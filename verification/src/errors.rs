//! Error values of the codec.
//!
//! Every failure is a returned value carrying the implicated tag number
//! (0 when no tag applies); nothing in the codec panics.

use vstd::prelude::*;

use crate::num::{dec_str, u128_to_string};

verus! {

/// The failure taxonomy: malformed tag-value syntax, a frame boundary
/// not yet available, a required tag absent, a tag present but not
/// parseable as its expected type, or an unrecognized message-type code.
#[derive(Debug, Clone, Copy, PartialEq, Eq, Structural)]
pub enum FixErrorKind {
    Parse,
    Incomplete,
    MissingField,
    InvalidFormat,
    UnexpectedMessage,
}

/// A codec error: a kind together with the implicated tag number.
#[derive(Debug, Clone, Copy, PartialEq, Eq, Structural)]
pub struct FixError {
    pub kind: FixErrorKind,
    pub field: i32,
}

/// Decimal rendering of a signed number.
pub open spec fn int_str(n: int) -> Seq<char> {
    if n < 0 {
        seq!['-'] + dec_str(-n)
    } else {
        dec_str(n)
    }
}

/// Renders a signed number as decimal text.
pub fn i32_to_string(n: i32) -> (r: String)
    ensures
        r@ == int_str(n as int),
{
    if n < 0 {
        let m: i64 = -(n as i64);
        let mut r = String::from_str("-");
        proof {
            reveal_strlit("-");
        }
        r.append(u128_to_string(m as u128).as_str());
        proof {
            assert(r@ =~= int_str(n as int));
        }
        r
    } else {
        u128_to_string(n as u128)
    }
}

impl FixError {
    /// The human-readable account of this error.
    pub open spec fn spec_describe(self) -> Seq<char> {
        match self.kind {
            FixErrorKind::Parse => "Parse error"@,
            FixErrorKind::Incomplete => "Incomplete message missing #"@ + int_str(
                self.field as int,
            ),
            FixErrorKind::MissingField => "Message is missing field #"@ + int_str(
                self.field as int,
            ),
            FixErrorKind::InvalidFormat => "Message field #"@ + int_str(self.field as int)
                + " has an invalid format"@,
            FixErrorKind::UnexpectedMessage => "Message kind is unexpected"@,
        }
    }

    /// Renders this error as text naming its kind and, where one
    /// applies, the implicated tag.
    pub fn describe(&self) -> (r: String)
        ensures
            r@ == self.spec_describe(),
    {
        match self.kind {
            FixErrorKind::Parse => String::from_str("Parse error"),
            FixErrorKind::Incomplete => {
                let mut r = String::from_str("Incomplete message missing #");
                r.append(i32_to_string(self.field).as_str());
                r
            },
            FixErrorKind::MissingField => {
                let mut r = String::from_str("Message is missing field #");
                r.append(i32_to_string(self.field).as_str());
                r
            },
            FixErrorKind::InvalidFormat => {
                let mut r = String::from_str("Message field #");
                r.append(i32_to_string(self.field).as_str());
                r.append(" has an invalid format");
                r
            },
            FixErrorKind::UnexpectedMessage => String::from_str("Message kind is unexpected"),
        }
    }
}

} // verus!
