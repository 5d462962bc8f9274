//! Decoding of escape notation, as [`crate::unescape`] does it. Only the
//! message for a bad escape is worded differently here.

use crate::unescape::{decode, Failure, Fault};
use std::borrow::Cow;
use vstd::prelude::*;
use vstd::string::StringExecFns;

verus! {

/// Why decoding failed. Each variant holds the input up to the offending
/// character and that character.
#[derive(Debug)]
pub enum UnescapeError {
    /// A character after a backslash that is no escape code.
    BadEscape(String, char),
    /// `\u` is not followed by `{`.
    MissingOpenBrace(String, char),
    /// A character inside the braces after `\u` is no hexadecimal digit.
    NonHexDigit(String, char),
    /// The value inside the braces after `\u` exceeds 0x10FFFF.
    HexValueTooLarge(String, char),
    /// The value inside the braces after `\u` is no character.
    InvalidUnicodeValue(String, char),
}

/// The words that begin the message for a fault.
pub open spec fn headline(fault: Fault) -> Seq<char> {
    match fault {
        Fault::BadEscape => "Bad escape parsing string. Failed at: "@,
        Fault::MissingOpenBrace => "Missing open brace after \\u. Failed at: "@,
        Fault::NonHexDigit => "Non-hex digit in \\u. Failed at: "@,
        Fault::HexValueTooLarge => "Hex value too large in \\u. Failed at: "@,
        Fault::InvalidUnicodeValue => "Invalid value in \\u. Failed at: "@,
    }
}

impl UnescapeError {
    /// The kind of the fault.
    pub open spec fn fault(&self) -> Fault {
        match self {
            UnescapeError::BadEscape(_, _) => Fault::BadEscape,
            UnescapeError::MissingOpenBrace(_, _) => Fault::MissingOpenBrace,
            UnescapeError::NonHexDigit(_, _) => Fault::NonHexDigit,
            UnescapeError::HexValueTooLarge(_, _) => Fault::HexValueTooLarge,
            UnescapeError::InvalidUnicodeValue(_, _) => Fault::InvalidUnicodeValue,
        }
    }

    /// The input in front of the offending character.
    pub open spec fn prefix(&self) -> Seq<char> {
        match self {
            UnescapeError::BadEscape(prefix, _) => prefix@,
            UnescapeError::MissingOpenBrace(prefix, _) => prefix@,
            UnescapeError::NonHexDigit(prefix, _) => prefix@,
            UnescapeError::HexValueTooLarge(prefix, _) => prefix@,
            UnescapeError::InvalidUnicodeValue(prefix, _) => prefix@,
        }
    }

    /// The offending character.
    pub open spec fn culprit(&self) -> char {
        match self {
            UnescapeError::BadEscape(_, c) => *c,
            UnescapeError::MissingOpenBrace(_, c) => *c,
            UnescapeError::NonHexDigit(_, c) => *c,
            UnescapeError::HexValueTooLarge(_, c) => *c,
            UnescapeError::InvalidUnicodeValue(_, c) => *c,
        }
    }

    /// The same error in this module's type.
    pub fn from_current(error: crate::unescape::UnescapeError) -> (same: UnescapeError)
        ensures
            same.fault() == error.fault(),
            same.prefix() == error.prefix(),
            same.culprit() == error.culprit(),
    {
        match error {
            crate::unescape::UnescapeError::BadEscape(prefix, c) => UnescapeError::BadEscape(
                prefix,
                c,
            ),
            crate::unescape::UnescapeError::MissingOpenBrace(
                prefix,
                c,
            ) => UnescapeError::MissingOpenBrace(prefix, c),
            crate::unescape::UnescapeError::NonHexDigit(prefix, c) => UnescapeError::NonHexDigit(
                prefix,
                c,
            ),
            crate::unescape::UnescapeError::HexValueTooLarge(
                prefix,
                c,
            ) => UnescapeError::HexValueTooLarge(prefix, c),
            crate::unescape::UnescapeError::InvalidUnicodeValue(
                prefix,
                c,
            ) => UnescapeError::InvalidUnicodeValue(prefix, c),
        }
    }

    /// The error in words: what went wrong, then the input up to and with
    /// the offending character.
    pub fn message(&self) -> (text: String)
        ensures
            text@ == headline(self.fault()) + self.prefix().push(self.culprit()),
    {
        let (mut text, prefix, culprit) = match self {
            UnescapeError::BadEscape(prefix, c) => (
                "Bad escape parsing string. Failed at: ".to_owned(),
                prefix,
                *c,
            ),
            UnescapeError::MissingOpenBrace(prefix, c) => (
                "Missing open brace after \\u. Failed at: ".to_owned(),
                prefix,
                *c,
            ),
            UnescapeError::NonHexDigit(prefix, c) => (
                "Non-hex digit in \\u. Failed at: ".to_owned(),
                prefix,
                *c,
            ),
            UnescapeError::HexValueTooLarge(prefix, c) => (
                "Hex value too large in \\u. Failed at: ".to_owned(),
                prefix,
                *c,
            ),
            UnescapeError::InvalidUnicodeValue(prefix, c) => (
                "Invalid value in \\u. Failed at: ".to_owned(),
                prefix,
                *c,
            ),
        };
        text.append(prefix.as_str());
        text.push(culprit);
        proof {
            assert(text@ =~= headline(self.fault()) + self.prefix().push(self.culprit()));
        }
        text
    }
}

/// Replaces the escape notation in `input` by the characters it stands for.
/// Decoding stops at the first fault, and the error holds the input in front
/// of the offending character and that character.
pub fn unescape<'a>(input: &'a str) -> (result: Result<Cow<'a, str>, UnescapeError>)
    ensures
        match result {
            Ok(text) => decode(input@) == Ok::<Seq<char>, Failure>(text@),
            Err(error) => {
                &&& decode(input@) == Err::<Seq<char>, Failure>(
                    Failure { fault: error.fault(), at: error.prefix().len() },
                )
                &&& error.prefix().len() < input@.len()
                &&& error.prefix() == input@.take(error.prefix().len() as int)
                &&& error.culprit() == input@[error.prefix().len() as int]
            },
        },
{
    match crate::unescape::unescape(input) {
        Ok(text) => Ok(text),
        Err(error) => Err(UnescapeError::from_current(error)),
    }
}

} // verus!
