//! Decoding of escape notation.
//!
//! Text is read character by character. A backslash announces an escape:
//! after it, one of `t`, `n`, `r`, `'`, `"` and `\` stands for the character
//! it names, and `u` begins a code point written as `{` hexadecimal digits
//! `}`. Once the escape is complete, ordinary text goes on. So
//! `This isn\'t\nna\u{ef}ve` decodes to `This isn't`, a line feed and
//! `naïve`.

use crate::text::is_scalar;
use std::borrow::Cow;
use vstd::prelude::*;

verus! {

/// What the decoder expects next.
#[derive(Clone, Copy, Debug)]
pub enum State {
    /// Ordinary text.
    Normal,
    /// An escape code: the character after a backslash.
    Escape,
    /// The brace that opens a code point.
    StartUnicode,
    /// A digit of the code point, or the closing brace; the field is the
    /// value of the digits read so far.
    InUnicode(u32),
}

/// The ways in which decoding fails.
#[derive(Clone, Copy, Debug)]
pub enum Fault {
    /// A character after a backslash that is no escape code.
    BadEscape,
    /// Something other than `{` after `\u`.
    MissingOpenBrace,
    /// Something other than a hexadecimal digit or `}` inside the braces.
    NonHexDigit,
    /// Digits whose value exceeds 0x10FFFF.
    HexValueTooLarge,
    /// A closing brace after a value that is no character.
    InvalidUnicodeValue,
}

/// The largest code point.
pub const MAX_CODE_POINT: u32 = 0x10FFFF;

/// The character that the escape code `c` stands for.
pub open spec fn simple_escape(c: char) -> Option<char> {
    if c == 't' {
        Some('\t')
    } else if c == '\\' {
        Some('\\')
    } else if c == '"' {
        Some('"')
    } else if c == '\'' {
        Some('\'')
    } else if c == 'n' {
        Some('\n')
    } else if c == 'r' {
        Some('\r')
    } else {
        None
    }
}

/// The value of `c` as a hexadecimal digit.
pub open spec fn hex_value(c: char) -> Option<u32> {
    if '0' <= c <= '9' {
        Some((c as u32 - '0' as u32) as u32)
    } else if 'a' <= c <= 'f' {
        Some((c as u32 - 'a' as u32 + 10) as u32)
    } else if 'A' <= c <= 'F' {
        Some((c as u32 - 'A' as u32 + 10) as u32)
    } else {
        None
    }
}

/// What one character does to the decoder: the state it leaves the decoder
/// in and the character it adds to the output, if any; or the fault it is.
pub open spec fn decode_char(state: State, c: char) -> Result<(State, Option<char>), Fault> {
    match state {
        State::Normal => if c == '\\' {
            Ok((State::Escape, None))
        } else {
            Ok((State::Normal, Some(c)))
        },
        State::Escape => if simple_escape(c) is Some {
            Ok((State::Normal, simple_escape(c)))
        } else if c == 'u' {
            Ok((State::StartUnicode, None))
        } else {
            Err(Fault::BadEscape)
        },
        State::StartUnicode => if c == '{' {
            Ok((State::InUnicode(0), None))
        } else {
            Err(Fault::MissingOpenBrace)
        },
        State::InUnicode(value) => if c == '}' {
            if is_scalar(value) {
                Ok((State::Normal, Some(value as char)))
            } else {
                Err(Fault::InvalidUnicodeValue)
            }
        } else {
            match hex_value(c) {
                None => Err(Fault::NonHexDigit),
                Some(digit) => if value * 16 + digit > MAX_CODE_POINT {
                    Err(Fault::HexValueTooLarge)
                } else {
                    Ok((State::InUnicode((value * 16 + digit) as u32), None))
                },
            }
        },
    }
}

/// How far decoding has come: either it goes on, with a state and the text
/// decoded so far, or it has failed at a position of the input.
pub enum Progress {
    Decoding { state: State, text: Seq<char> },
    Failed { fault: Fault, at: nat },
}

/// Decoding of `input` from left to right. A fault ends it: what follows the
/// offending character is not looked at.
pub open spec fn run(input: Seq<char>) -> Progress
    decreases input.len(),
{
    if input.len() == 0 {
        Progress::Decoding { state: State::Normal, text: Seq::empty() }
    } else {
        match run(input.drop_last()) {
            Progress::Failed { fault, at } => Progress::Failed { fault, at },
            Progress::Decoding { state, text } => match decode_char(state, input.last()) {
                Err(fault) => Progress::Failed { fault, at: (input.len() - 1) as nat },
                Ok((next, None)) => Progress::Decoding { state: next, text },
                Ok((next, Some(c))) => Progress::Decoding { state: next, text: text.push(c) },
            },
        }
    }
}

/// A fault and the position of the character that caused it.
pub struct Failure {
    pub fault: Fault,
    pub at: nat,
}

/// The decoded text of `input`, or the first fault in it. An escape that the
/// end of the input cuts short adds nothing and is no fault.
pub open spec fn decode(input: Seq<char>) -> Result<Seq<char>, Failure> {
    match run(input) {
        Progress::Decoding { state, text } => Ok(text),
        Progress::Failed { fault, at } => Err(Failure { fault, at }),
    }
}

/// Once decoding has failed, more input changes nothing.
pub proof fn lemma_failure_is_final(input: Seq<char>, n: int)
    requires
        0 <= n <= input.len(),
        run(input.take(n)) is Failed,
    ensures
        run(input) == run(input.take(n)),
    decreases input.len() - n,
{
    if n == input.len() {
        assert(input.take(n) =~= input);
    } else {
        assert(input.drop_last().take(n) =~= input.take(n));
        lemma_failure_is_final(input.drop_last(), n);
    }
}

/// Why decoding failed. Each variant holds the input up to the offending
/// character and that character.
#[derive(Debug)]
pub enum UnescapeError {
    /// A character after a backslash that is no escape code.
    BadEscape(String, char),
    /// `\u` is not followed by `{`.
    MissingOpenBrace(String, char),
    /// A character inside the braces after `\u` is no hexadecimal digit.
    NonHexDigit(String, char),
    /// The value inside the braces after `\u` exceeds 0x10FFFF.
    HexValueTooLarge(String, char),
    /// The value inside the braces after `\u` is no character.
    InvalidUnicodeValue(String, char),
}

/// The words that begin the message for a fault.
pub open spec fn headline(fault: Fault) -> Seq<char> {
    match fault {
        Fault::BadEscape => "Bad escape found. Failed at: "@,
        Fault::MissingOpenBrace => "Missing open brace after \\u. Failed at: "@,
        Fault::NonHexDigit => "Non-hex digit in \\u. Failed at: "@,
        Fault::HexValueTooLarge => "Hex value too large in \\u. Failed at: "@,
        Fault::InvalidUnicodeValue => "Invalid value in \\u. Failed at: "@,
    }
}

impl UnescapeError {
    /// The kind of the fault.
    pub open spec fn fault(&self) -> Fault {
        match self {
            UnescapeError::BadEscape(_, _) => Fault::BadEscape,
            UnescapeError::MissingOpenBrace(_, _) => Fault::MissingOpenBrace,
            UnescapeError::NonHexDigit(_, _) => Fault::NonHexDigit,
            UnescapeError::HexValueTooLarge(_, _) => Fault::HexValueTooLarge,
            UnescapeError::InvalidUnicodeValue(_, _) => Fault::InvalidUnicodeValue,
        }
    }

    /// The input in front of the offending character.
    pub open spec fn prefix(&self) -> Seq<char> {
        match self {
            UnescapeError::BadEscape(prefix, _) => prefix@,
            UnescapeError::MissingOpenBrace(prefix, _) => prefix@,
            UnescapeError::NonHexDigit(prefix, _) => prefix@,
            UnescapeError::HexValueTooLarge(prefix, _) => prefix@,
            UnescapeError::InvalidUnicodeValue(prefix, _) => prefix@,
        }
    }

    /// The offending character.
    pub open spec fn culprit(&self) -> char {
        match self {
            UnescapeError::BadEscape(_, c) => *c,
            UnescapeError::MissingOpenBrace(_, c) => *c,
            UnescapeError::NonHexDigit(_, c) => *c,
            UnescapeError::HexValueTooLarge(_, c) => *c,
            UnescapeError::InvalidUnicodeValue(_, c) => *c,
        }
    }

    /// The error in words: what went wrong, then the input up to and with
    /// the offending character.
    pub fn message(&self) -> (text: String)
        ensures
            text@ == headline(self.fault()) + self.prefix().push(self.culprit()),
    {
        let (mut text, prefix, culprit) = match self {
            UnescapeError::BadEscape(prefix, c) => (
                "Bad escape found. Failed at: ".to_owned(),
                prefix,
                *c,
            ),
            UnescapeError::MissingOpenBrace(prefix, c) => (
                "Missing open brace after \\u. Failed at: ".to_owned(),
                prefix,
                *c,
            ),
            UnescapeError::NonHexDigit(prefix, c) => (
                "Non-hex digit in \\u. Failed at: ".to_owned(),
                prefix,
                *c,
            ),
            UnescapeError::HexValueTooLarge(prefix, c) => (
                "Hex value too large in \\u. Failed at: ".to_owned(),
                prefix,
                *c,
            ),
            UnescapeError::InvalidUnicodeValue(prefix, c) => (
                "Invalid value in \\u. Failed at: ".to_owned(),
                prefix,
                *c,
            ),
        };
        text.append(prefix.as_str());
        text.push(culprit);
        proof {
            assert(text@ =~= headline(self.fault()) + self.prefix().push(self.culprit()));
        }
        text
    }

    /// The error for a fault of the given kind at the character `culprit`,
    /// which follows `prefix` in the input.
    pub fn new(fault: Fault, prefix: String, culprit: char) -> (error: UnescapeError)
        ensures
            error.fault() == fault,
            error.prefix() == prefix@,
            error.culprit() == culprit,
    {
        match fault {
            Fault::BadEscape => UnescapeError::BadEscape(prefix, culprit),
            Fault::MissingOpenBrace => UnescapeError::MissingOpenBrace(prefix, culprit),
            Fault::NonHexDigit => UnescapeError::NonHexDigit(prefix, culprit),
            Fault::HexValueTooLarge => UnescapeError::HexValueTooLarge(prefix, culprit),
            Fault::InvalidUnicodeValue => UnescapeError::InvalidUnicodeValue(prefix, culprit),
        }
    }
}

/// The value of `c` as a hexadecimal digit, for digits in either case.
pub fn hex_digit(c: char) -> (digit: Option<u32>)
    ensures
        digit == hex_value(c),
{
    if '0' <= c && c <= '9' {
        Some(c as u32 - '0' as u32)
    } else if 'a' <= c && c <= 'f' {
        Some(c as u32 - 'a' as u32 + 10)
    } else if 'A' <= c && c <= 'F' {
        Some(c as u32 - 'A' as u32 + 10)
    } else {
        None
    }
}

/// Reads one character in the given state.
pub fn advance(state: State, c: char) -> (result: Result<(State, Option<char>), Fault>)
    ensures
        result == decode_char(state, c),
{
    match state {
        State::Normal => {
            if c == '\\' {
                Ok((State::Escape, None))
            } else {
                Ok((State::Normal, Some(c)))
            }
        },
        State::Escape => {
            if c == 't' {
                Ok((State::Normal, Some('\t')))
            } else if c == '\\' {
                Ok((State::Normal, Some('\\')))
            } else if c == '"' {
                Ok((State::Normal, Some('"')))
            } else if c == '\'' {
                Ok((State::Normal, Some('\'')))
            } else if c == 'n' {
                Ok((State::Normal, Some('\n')))
            } else if c == 'r' {
                Ok((State::Normal, Some('\r')))
            } else if c == 'u' {
                Ok((State::StartUnicode, None))
            } else {
                Err(Fault::BadEscape)
            }
        },
        State::StartUnicode => {
            if c == '{' {
                Ok((State::InUnicode(0), None))
            } else {
                Err(Fault::MissingOpenBrace)
            }
        },
        State::InUnicode(value) => {
            if c == '}' {
                match char::from_u32(value) {
                    Some(decoded) => Ok((State::Normal, Some(decoded))),
                    None => Err(Fault::InvalidUnicodeValue),
                }
            } else {
                match hex_digit(c) {
                    None => Err(Fault::NonHexDigit),
                    Some(digit) => {
                        let shifted: u64 = value as u64 * 16 + digit as u64;
                        if shifted > MAX_CODE_POINT as u64 {
                            Err(Fault::HexValueTooLarge)
                        } else {
                            Ok((State::InUnicode(shifted as u32), None))
                        }
                    },
                }
            }
        },
    }
}

/// Replaces the escape notation in `input` by the characters it stands for.
/// Decoding stops at the first fault, and the error holds the input in front
/// of the offending character and that character. An input without a
/// backslash is handed back as it is.
pub fn unescape<'a>(input: &'a str) -> (result: Result<Cow<'a, str>, UnescapeError>)
    ensures
        match result {
            Ok(text) => decode(input@) == Ok::<Seq<char>, Failure>(text@),
            Err(error) => {
                &&& decode(input@) == Err::<Seq<char>, Failure>(
                    Failure { fault: error.fault(), at: error.prefix().len() },
                )
                &&& error.prefix().len() < input@.len()
                &&& error.prefix() == input@.take(error.prefix().len() as int)
                &&& error.culprit() == input@[error.prefix().len() as int]
            },
        },
{
    let mut state = State::Normal;
    let mut escape_sequence_seen = false;
    let mut text = String::new();
    let mut consumed = String::new();
    for c in it: input.chars()
        invariant
            it.seq() == input@,
            run(input@.take(it.index())) == (Progress::Decoding { state, text: text@ }),
            consumed@ == input@.take(it.index()),
            !escape_sequence_seen ==> is_plain(input@.take(it.index())),
    {
        let ghost i = it.index();
        proof {
            assert(input@.take(i + 1).drop_last() =~= input@.take(i));
        }
        if c == '\\' {
            escape_sequence_seen = true;
        }
        match advance(state, c) {
            Err(fault) => {
                proof {
                    lemma_failure_is_final(input@, i + 1);
                }
                return Err(UnescapeError::new(fault, consumed, c));
            },
            Ok((next, decoded)) => {
                state = next;
                if let Some(d) = decoded {
                    text.push(d);
                }
            },
        }
        consumed.push(c);
        proof {
            assert(input@.take(i).push(c) =~= input@.take(i + 1));
        }
    }
    proof {
        assert(input@.take(input@.len() as int) =~= input@);
    }
    if escape_sequence_seen {
        Ok(Cow::Owned(text))
    } else {
        proof {
            plain_text_is_unchanged(input@);
        }
        Ok(Cow::Borrowed(input))
    }
}

/// The number that a sequence of hexadecimal digits denotes.
pub open spec fn hex_number(digits: Seq<char>) -> nat
    decreases digits.len(),
{
    if digits.len() == 0 {
        0
    } else {
        hex_number(digits.drop_last()) * 16 + match hex_value(digits.last()) {
            Some(digit) => digit as nat,
            None => 0,
        }
    }
}

/// Every character of `digits` is a hexadecimal digit.
pub open spec fn all_hex(digits: Seq<char>) -> bool {
    forall|i: int| 0 <= i < digits.len() ==> hex_value(#[trigger] digits[i]) is Some
}

/// `text` holds no backslash.
pub open spec fn is_plain(text: Seq<char>) -> bool {
    forall|i: int| 0 <= i < text.len() ==> #[trigger] text[i] != '\\'
}

/// Reading one more character is one more step.
proof fn lemma_run_push(input: Seq<char>, c: char)
    ensures
        run(input.push(c)) == match run(input) {
            Progress::Failed { fault, at } => Progress::Failed { fault, at },
            Progress::Decoding { state, text } => match decode_char(state, c) {
                Err(fault) => Progress::Failed { fault, at: input.len() },
                Ok((next, None)) => Progress::Decoding { state: next, text },
                Ok((next, Some(d))) => Progress::Decoding { state: next, text: text.push(d) },
            },
        },
{
    assert(input.push(c).drop_last() =~= input);
}

/// Text without a backslash decodes to itself and leaves the decoder in
/// ordinary text.
pub proof fn plain_text_is_unchanged(text: Seq<char>)
    requires
        is_plain(text),
    ensures
        run(text) == (Progress::Decoding { state: State::Normal, text }),
        decode(text) == Ok::<Seq<char>, Failure>(text),
    decreases text.len(),
{
    if text.len() == 0 {
        assert(text =~= Seq::<char>::empty());
    } else {
        let shorter = text.drop_last();
        assert forall|i: int| 0 <= i < shorter.len() implies #[trigger] shorter[i] != '\\' by {
            assert(shorter[i] == text[i]);
        }
        plain_text_is_unchanged(shorter);
        assert(text[text.len() - 1] != '\\');
        assert(shorter.push(text.last()) =~= text);
    }
}

/// Each of the escapes `\t`, `\n`, `\r`, `\'`, `\"` and `\\` decodes to the
/// one character it names.
pub proof fn escape_decodes_to_its_character(plain: Seq<char>, code: char)
    requires
        is_plain(plain),
        simple_escape(code) is Some,
    ensures
        decode(plain.push('\\').push(code)) == Ok::<Seq<char>, Failure>(
            plain.push(simple_escape(code)->0),
        ),
{
    plain_text_is_unchanged(plain);
    lemma_run_push(plain, '\\');
    lemma_run_push(plain.push('\\'), code);
}

/// Ordinary text that follows decoded text is added to it as it is: where
/// decoding of `input` ends in ordinary text, `rest` without a backslash
/// comes out behind what `input` decodes to.
pub proof fn plain_text_follows_unharmed(input: Seq<char>, rest: Seq<char>)
    requires
        run(input) matches Progress::Decoding { state: State::Normal, .. },
        is_plain(rest),
    ensures
        run(input + rest) == (Progress::Decoding {
            state: State::Normal,
            text: run(input)->text + rest,
        }),
        decode(input + rest) == Ok::<Seq<char>, Failure>(decode(input)->Ok_0 + rest),
    decreases rest.len(),
{
    let text = run(input)->text;
    if rest.len() == 0 {
        assert(input + rest =~= input);
        assert(text + rest =~= text);
    } else {
        let shorter = rest.drop_last();
        assert(is_plain(shorter)) by {
            assert forall|i: int| 0 <= i < shorter.len() implies #[trigger] shorter[i] != '\\' by {
                assert(shorter[i] == rest[i]);
            }
        }
        plain_text_follows_unharmed(input, shorter);
        assert(rest[rest.len() - 1] != '\\');
        lemma_run_push(input + shorter, rest.last());
        assert((input + shorter).push(rest.last()) =~= input + rest);
        assert((text + shorter).push(rest.last()) =~= text + rest);
    }
}

/// An escape between ordinary text: the text in front of it, the character
/// it names and the text behind it come out, in this order, and the text
/// behind it is not touched.
pub proof fn escape_between_plain_text_decodes(plain: Seq<char>, code: char, rest: Seq<char>)
    requires
        is_plain(plain),
        is_plain(rest),
        simple_escape(code) is Some,
    ensures
        decode(plain.push('\\').push(code) + rest) == Ok::<Seq<char>, Failure>(
            plain.push(simple_escape(code)->0) + rest,
        ),
{
    plain_text_is_unchanged(plain);
    lemma_run_push(plain, '\\');
    lemma_run_push(plain.push('\\'), code);
    plain_text_follows_unharmed(plain.push('\\').push(code), rest);
}

/// A code point between ordinary text: the text in front of it, the
/// character of the code point and the text behind it come out.
pub proof fn code_point_between_plain_text_decodes(
    plain: Seq<char>,
    digits: Seq<char>,
    rest: Seq<char>,
)
    requires
        is_plain(plain),
        is_plain(rest),
        all_hex(digits),
        hex_number(digits) <= MAX_CODE_POINT,
        is_scalar(hex_number(digits) as u32),
    ensures
        decode(open_code_point(plain, digits).push('}') + rest) == Ok::<Seq<char>, Failure>(
            plain.push(hex_number(digits) as u32 as char) + rest,
        ),
{
    lemma_digits_are_read(plain, digits);
    lemma_run_push(open_code_point(plain, digits), '}');
    plain_text_follows_unharmed(open_code_point(plain, digits).push('}'), rest);
}

/// A character after a backslash that is neither an escape code nor `u` is
/// rejected as a bad escape.
pub proof fn unknown_escape_is_rejected(plain: Seq<char>, code: char)
    requires
        is_plain(plain),
        simple_escape(code) is None,
        code != 'u',
    ensures
        decode(plain.push('\\').push(code)) == Err::<Seq<char>, Failure>(
            Failure { fault: Fault::BadEscape, at: plain.len() + 1 },
        ),
{
    plain_text_is_unchanged(plain);
    lemma_run_push(plain, '\\');
    lemma_run_push(plain.push('\\'), code);
}

/// `\u` must be followed by an opening brace.
pub proof fn missing_brace_is_rejected(plain: Seq<char>, c: char)
    requires
        is_plain(plain),
        c != '{',
    ensures
        decode(plain.push('\\').push('u').push(c)) == Err::<Seq<char>, Failure>(
            Failure { fault: Fault::MissingOpenBrace, at: plain.len() + 2 },
        ),
{
    plain_text_is_unchanged(plain);
    lemma_run_push(plain, '\\');
    lemma_run_push(plain.push('\\'), 'u');
    lemma_run_push(plain.push('\\').push('u'), c);
}

/// The input up to and with the digits of a code point: `plain`, then
/// `\u{`, then `digits`.
pub open spec fn open_code_point(plain: Seq<char>, digits: Seq<char>) -> Seq<char> {
    plain.push('\\').push('u').push('{') + digits
}

/// A longer number in hexadecimal is not smaller.
proof fn lemma_hex_number_grows(digits: Seq<char>, n: int)
    requires
        0 <= n <= digits.len(),
    ensures
        hex_number(digits.take(n)) <= hex_number(digits),
    decreases digits.len() - n,
{
    if n == digits.len() {
        assert(digits.take(n) =~= digits);
    } else {
        assert(digits.drop_last().take(n) =~= digits.take(n));
        lemma_hex_number_grows(digits.drop_last(), n);
    }
}

/// While the digits of a code point stay within range, the decoder holds
/// their value.
proof fn lemma_digits_are_read(plain: Seq<char>, digits: Seq<char>)
    requires
        is_plain(plain),
        all_hex(digits),
        hex_number(digits) <= MAX_CODE_POINT,
    ensures
        run(open_code_point(plain, digits)) == (Progress::Decoding {
            state: State::InUnicode(hex_number(digits) as u32),
            text: plain,
        }),
    decreases digits.len(),
{
    if digits.len() == 0 {
        plain_text_is_unchanged(plain);
        lemma_run_push(plain, '\\');
        lemma_run_push(plain.push('\\'), 'u');
        lemma_run_push(plain.push('\\').push('u'), '{');
        assert(open_code_point(plain, digits) =~= plain.push('\\').push('u').push('{'));
    } else {
        let shorter = digits.drop_last();
        let last = digits.last();
        assert(shorter =~= digits.take(digits.len() - 1));
        lemma_hex_number_grows(digits, digits.len() - 1);
        assert(all_hex(shorter)) by {
            assert forall|i: int| 0 <= i < shorter.len() implies hex_value(
                #[trigger] shorter[i],
            ) is Some by {
                assert(shorter[i] == digits[i]);
            }
        }
        lemma_digits_are_read(plain, shorter);
        assert(hex_value(digits[digits.len() - 1]) is Some);
        assert(last != '}');
        lemma_run_push(open_code_point(plain, shorter), last);
        assert(open_code_point(plain, shorter).push(last) =~= open_code_point(plain, digits));
    }
}

/// `\u{` digits `}` decodes to the character whose code point the digits
/// denote. Where the digits denote a surrogate, the closing brace is rejected
/// as an invalid value.
pub proof fn code_point_decodes_to_its_character(plain: Seq<char>, digits: Seq<char>)
    requires
        is_plain(plain),
        all_hex(digits),
        hex_number(digits) <= MAX_CODE_POINT,
    ensures
        decode(open_code_point(plain, digits).push('}')) == if is_scalar(
            hex_number(digits) as u32,
        ) {
            Ok::<Seq<char>, Failure>(plain.push(hex_number(digits) as u32 as char))
        } else {
            Err::<Seq<char>, Failure>(
                Failure {
                    fault: Fault::InvalidUnicodeValue,
                    at: plain.len() + 3 + digits.len(),
                },
            )
        },
{
    lemma_digits_are_read(plain, digits);
    lemma_run_push(open_code_point(plain, digits), '}');
}

/// The digit that takes the value of a code point beyond 0x10FFFF is
/// rejected as too large.
pub proof fn large_value_is_rejected(plain: Seq<char>, digits: Seq<char>, digit: char)
    requires
        is_plain(plain),
        all_hex(digits),
        hex_value(digit) is Some,
        hex_number(digits) <= MAX_CODE_POINT,
        hex_number(digits.push(digit)) > MAX_CODE_POINT,
    ensures
        decode(open_code_point(plain, digits).push(digit)) == Err::<Seq<char>, Failure>(
            Failure { fault: Fault::HexValueTooLarge, at: plain.len() + 3 + digits.len() },
        ),
{
    lemma_digits_are_read(plain, digits);
    assert(digits.push(digit).drop_last() =~= digits);
    assert(digit != '}');
    lemma_run_push(open_code_point(plain, digits), digit);
}

/// Inside the braces of a code point, a character that is neither a
/// hexadecimal digit nor the closing brace is rejected.
pub proof fn non_hex_digit_is_rejected(plain: Seq<char>, digits: Seq<char>, c: char)
    requires
        is_plain(plain),
        all_hex(digits),
        hex_number(digits) <= MAX_CODE_POINT,
        hex_value(c) is None,
        c != '}',
    ensures
        decode(open_code_point(plain, digits).push(c)) == Err::<Seq<char>, Failure>(
            Failure { fault: Fault::NonHexDigit, at: plain.len() + 3 + digits.len() },
        ),
{
    lemma_digits_are_read(plain, digits);
    lemma_run_push(open_code_point(plain, digits), c);
}

/// The hexadecimal digit with the value `digit`, in lower case.
pub open spec fn hex_digit_of(digit: nat) -> char {
    if digit < 10 {
        ('0' as u32 + digit) as char
    } else {
        ('a' as u32 + digit - 10) as char
    }
}

/// `value` in hexadecimal, without leading zeros.
pub open spec fn hex_digits_of(value: nat) -> Seq<char>
    decreases value,
{
    if value < 16 {
        seq![hex_digit_of(value)]
    } else {
        hex_digits_of(value / 16).push(hex_digit_of(value % 16))
    }
}

/// The hexadecimal digits of a number denote that number.
proof fn lemma_hex_digits_denote(value: nat)
    ensures
        all_hex(hex_digits_of(value)),
        hex_number(hex_digits_of(value)) == value,
    decreases value,
{
    let digits = hex_digits_of(value);
    if value < 16 {
        assert(hex_value(hex_digit_of(value)) == Some(value as u32));
        assert(digits.drop_last() =~= Seq::<char>::empty());
        assert(hex_number(digits.drop_last()) == 0);
    } else {
        let shorter = hex_digits_of(value / 16);
        let last = hex_digit_of(value % 16);
        lemma_hex_digits_denote(value / 16);
        assert(hex_value(last) == Some((value % 16) as u32));
        assert(digits.drop_last() =~= shorter);
        assert forall|i: int| 0 <= i < digits.len() implies hex_value(
            #[trigger] digits[i],
        ) is Some by {
            if i < shorter.len() {
                assert(digits[i] == shorter[i]);
            }
        }
    }
}

/// Every character comes back from its code point: where `\u{` is followed
/// by the hexadecimal digits of a character's code point and `}`, these
/// decode to that character.
pub proof fn character_comes_back_from_its_code_point(plain: Seq<char>, c: char)
    requires
        is_plain(plain),
    ensures
        decode(open_code_point(plain, hex_digits_of(c as nat)).push('}')) == Ok::<
            Seq<char>,
            Failure,
        >(plain.push(c)),
{
    lemma_hex_digits_denote(c as nat);
    code_point_decodes_to_its_character(plain, hex_digits_of(c as nat));
}

} // verus!
