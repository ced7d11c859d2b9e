//! What can go wrong when a dictionary is read or changed.

use vstd::prelude::*;
use vstd::string::*;
use std::io;
use crate::format::{Break, Flaw};
use crate::model::Refusal;

verus! {

/// `std::io::Error`: the errors carry it on from whoever reads or writes
/// the file, and nothing here looks into it.
#[verifier::external_type_specification]
#[verifier::external_body]
pub struct ExIoError(io::Error);

/// Why a line of the dictionary file cannot be read.
#[derive(Debug)]
pub enum BrokenReason {
    BadLeftString,
    NoRightString,
    BadRightString { right_string: String },
    Duplicated { another_left_string: String },
}

/// The failure of reading a dictionary file.
#[derive(Debug)]
pub enum ReadError {
    IOError(io::Error),
    Broken { line: usize, left_string: String, reason: BrokenReason },
}

/// The failure of changing a dictionary.
#[derive(Debug)]
pub enum WriteError {
    IOError(io::Error),
    BadLeftString,
    BadRightString,
    Duplicated,
    Same,
}

impl View for BrokenReason {
    type V = Flaw;

    open spec fn view(&self) -> Flaw {
        match self {
            BrokenReason::BadLeftString => Flaw::BadLeft,
            BrokenReason::NoRightString => Flaw::NoRight,
            BrokenReason::BadRightString { right_string } => Flaw::BadRight(right_string@),
            BrokenReason::Duplicated { another_left_string } => Flaw::Duplicate(
                another_left_string@,
            ),
        }
    }
}

impl ReadError {
    /// The broken line that this error reports; `None` for a failure of
    /// input or output.
    pub open spec fn broken(&self) -> Option<Break> {
        match self {
            ReadError::IOError(_) => None,
            ReadError::Broken { line, left_string, reason } => Some(
                Break { line: *line as nat, left: left_string@, flaw: reason@ },
            ),
        }
    }
}

impl WriteError {
    /// The reason for which the pair was refused; `None` for a failure of
    /// input or output.
    pub open spec fn refusal(&self) -> Option<Refusal> {
        match self {
            WriteError::IOError(_) => None,
            WriteError::BadLeftString => Some(Refusal::BadLeft),
            WriteError::BadRightString => Some(Refusal::BadRight),
            WriteError::Duplicated => Some(Refusal::Duplicate),
            WriteError::Same => Some(Refusal::Same),
        }
    }
}

impl From<io::Error> for ReadError {
    fn from(error: io::Error) -> (r: Self) {
        ReadError::IOError(error)
    }
}

impl vstd::std_specs::convert::FromSpecImpl<io::Error> for ReadError {
    open spec fn obeys_from_spec() -> bool {
        true
    }

    open spec fn from_spec(error: io::Error) -> Self {
        ReadError::IOError(error)
    }
}

impl From<io::Error> for WriteError {
    fn from(error: io::Error) -> (r: Self) {
        WriteError::IOError(error)
    }
}

impl vstd::std_specs::convert::FromSpecImpl<io::Error> for WriteError {
    open spec fn obeys_from_spec() -> bool {
        true
    }

    open spec fn from_spec(error: io::Error) -> Self {
        WriteError::IOError(error)
    }
}

/// What formatting a string with `{:?}` writes: the text between double
/// quotes, with its special characters escaped.
pub uninterp spec fn debug_text(s: Seq<char>) -> Seq<char>;

/// The character of a decimal digit.
pub open spec fn digit(d: nat) -> char {
    ((48 + d) as u8) as char
}

/// The number in decimal digits, without leading zeros.
pub open spec fn decimal(n: nat) -> Seq<char>
    decreases n,
{
    if n < 10 {
        seq![digit(n)]
    } else {
        decimal(n / 10).push(digit(n % 10))
    }
}

/// The words for a flaw of the line whose left term is `left`.
pub open spec fn flaw_message(left: Seq<char>, flaw: Flaw) -> Seq<char> {
    match flaw {
        Flaw::BadLeft => "the left string "@ + debug_text(left) + " is not correct"@,
        Flaw::NoRight => "expected a \"=\" after the left string "@ + debug_text(left)
            + " to concatenate a right string"@,
        Flaw::BadRight(right) => "the right string "@ + debug_text(right) + " is not correct"@,
        Flaw::Duplicate(other) => if left == other {
            "the left string "@ + debug_text(left) + " is duplicated"@
        } else {
            "the left string "@ + debug_text(left) + " and "@ + debug_text(other)
                + " are duplicated"@
        },
    }
}

/// The words for a broken line.
pub open spec fn break_message(broken: Break) -> Seq<char> {
    "broken at line "@ + decimal(broken.line) + ", "@ + flaw_message(broken.left, broken.flaw)
}

/// The words for a pair that is refused.
pub open spec fn refusal_message(refusal: Refusal) -> Seq<char> {
    match refusal {
        Refusal::BadLeft => "the left word is not correct"@,
        Refusal::BadRight => "the right word is not correct"@,
        Refusal::Duplicate => "the pair of the left word and the right word is duplicated"@,
        Refusal::Same => "the left word is equal to the right word"@,
    }
}

/// Formats the string with `{:?}`, which goes to `<str as Debug>::fmt`.
#[verifier::external_body]
fn quoted(s: &str) -> (r: String)
    ensures
        r@ == debug_text(s@),
{
    format!("{:?}", s)
}

/// Formats the number with `{}`, which goes to `<usize as Display>::fmt`:
/// its decimal digits.
#[verifier::external_body]
fn number_text(n: usize) -> (r: String)
    ensures
        r@ == decimal(n as nat),
{
    format!("{}", n)
}

/// Formats the error with `{}`, which goes to `<io::Error as Display>::fmt`.
/// The words depend on the error and on the system that gave it.
#[verifier::external_body]
fn io_error_text(error: &io::Error) -> (r: String) {
    format!("{}", error)
}

impl BrokenReason {
    /// The words for this reason, for a line whose left term is
    /// `left_string`.
    pub fn message(&self, left_string: &str) -> (r: String)
        ensures
            r@ == flaw_message(left_string@, self@),
    {
        match self {
            BrokenReason::BadLeftString => {
                let out = String::from_str("the left string ");
                let out = out.concat(quoted(left_string).as_str());
                out.concat(" is not correct")
            },
            BrokenReason::NoRightString => {
                let out = String::from_str("expected a \"=\" after the left string ");
                let out = out.concat(quoted(left_string).as_str());
                out.concat(" to concatenate a right string")
            },
            BrokenReason::BadRightString { right_string } => {
                let out = String::from_str("the right string ");
                let out = out.concat(quoted(right_string.as_str()).as_str());
                out.concat(" is not correct")
            },
            BrokenReason::Duplicated { another_left_string } => {
                let out = String::from_str("the left string ");
                let out = out.concat(quoted(left_string).as_str());
                if left_string.to_owned() == *another_left_string {
                    out.concat(" is duplicated")
                } else {
                    let out = out.concat(" and ");
                    let out = out.concat(quoted(another_left_string.as_str()).as_str());
                    out.concat(" are duplicated")
                }
            },
        }
    }
}

impl ReadError {
    /// The words for this error. Those for a failure of input or output
    /// come from the system.
    pub fn message(&self) -> (r: String)
        ensures
            self.broken() matches Some(broken) ==> r@ == break_message(broken),
    {
        match self {
            ReadError::IOError(error) => io_error_text(error),
            ReadError::Broken { line, left_string, reason } => {
                let out = String::from_str("broken at line ");
                let out = out.concat(number_text(*line).as_str());
                let out = out.concat(", ");
                out.concat(reason.message(left_string.as_str()).as_str())
            },
        }
    }
}

impl WriteError {
    /// The words for this error. Those for a failure of input or output
    /// come from the system.
    pub fn message(&self) -> (r: String)
        ensures
            self.refusal() matches Some(refusal) ==> r@ == refusal_message(refusal),
    {
        match self {
            WriteError::IOError(error) => io_error_text(error),
            WriteError::BadLeftString => String::from_str("the left word is not correct"),
            WriteError::BadRightString => String::from_str("the right word is not correct"),
            WriteError::Duplicated => String::from_str(
                "the pair of the left word and the right word is duplicated",
            ),
            WriteError::Same => String::from_str("the left word is equal to the right word"),
        }
    }
}

} // verus!
