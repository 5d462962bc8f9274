use finl_charsub::unescape::{hex_digit, unescape, UnescapeError};
use std::borrow::Cow;

#[test]
fn unescape_ordinary_string_comes_back_the_same() {
    assert_eq!("ordinary", unescape("ordinary").unwrap());
}

#[test]
fn unescape_tab_escape_is_decoded() {
    assert_eq!("\t", unescape("\\t").unwrap());
}

#[test]
fn unescape_r_escape_is_decoded() {
    assert_eq!("\r", unescape("\\r").unwrap());
}

#[test]
fn unescape_n_escape_is_decoded() {
    assert_eq!("\n", unescape("\\n").unwrap());
}

#[test]
fn unescape_single_quote_escape_is_decoded() {
    assert_eq!("'", unescape("\\'").unwrap());
}

#[test]
fn unescape_double_quote_escape_is_decoded() {
    assert_eq!("\"", unescape("\\\"").unwrap());
}

#[test]
fn unescape_backslash_escape_is_decoded() {
    assert_eq!("\\", unescape("\\\\").unwrap());
}

#[test]
fn unescape_bad_escape_gives_error() {
    let result = unescape("foo \\0");
    assert_eq!(true, result.is_err());
    assert_eq!(
        "Bad escape found. Failed at: foo \\0",
        format!("{}", result.err().unwrap().message())
    )
}

#[test]
fn unescape_missing_brace_after_u_gives_error() {
    let result = unescape("foo \\un");
    assert_eq!(true, result.is_err());
    assert_eq!(
        "Missing open brace after \\u. Failed at: foo \\un",
        format!("{}", result.err().unwrap().message())
    )
}

#[test]
fn unescape_non_hex_digit_after_u_gives_error() {
    let result = unescape("foo \\u{n}");
    assert_eq!(true, result.is_err());
    assert_eq!(
        "Non-hex digit in \\u. Failed at: foo \\u{n",
        format!("{}", result.err().unwrap().message())
    )
}

#[test]
fn unescape_too_many_hex_digits_after_u_gives_error() {
    let result = unescape("foo \\u{1000000}");
    assert_eq!(true, result.is_err());
    assert_eq!(
        "Hex value too large in \\u. Failed at: foo \\u{1000000",
        format!("{}", result.err().unwrap().message())
    )
}

#[test]
fn unescape_too_large_a_value_gives_error() {
    let result = unescape("foo \\u{120000}");
    assert_eq!(true, result.is_err());
    assert_eq!(
        "Hex value too large in \\u. Failed at: foo \\u{120000",
        format!("{}", result.err().unwrap().message())
    )
}

#[test]
fn unescape_invalid_code_point_gives_error() {
    let result = unescape("foo \\u{d800}");
    assert_eq!(true, result.is_err());
    assert_eq!(
        "Invalid value in \\u. Failed at: foo \\u{d800}",
        format!("{}", result.err().unwrap().message())
    )
}

#[test]
fn unescape_unicode_escape_is_decoded() {
    assert_eq!("a\u{a0}b", unescape("a\\u{a0}b").unwrap());
}

#[test]
fn every_character_comes_back_from_its_code_point() {
    let mut code: u32 = 0;
    while code <= 0x10FFFF {
        let lower = format!("\\u{{{:x}}}", code);
        let upper = format!("x\\u{{{:06X}}}y", code);
        match char::from_u32(code) {
            Some(c) => {
                assert_eq!(c.to_string(), unescape(&lower).unwrap());
                assert_eq!(format!("x{}y", c), unescape(&upper).unwrap());
            }
            None => match unescape(&lower) {
                Err(UnescapeError::InvalidUnicodeValue(prefix, '}')) => {
                    assert_eq!(format!("\\u{{{:x}", code), prefix)
                }
                other => panic!("unexpected: {:?}", other),
            },
        }
        code += 257;
    }
}

#[test]
fn surrogates_are_no_characters() {
    for input in ["\\u{d800}", "\\u{DBFF}", "\\u{dc00}", "\\u{dfff}"] {
        match unescape(input) {
            Err(UnescapeError::InvalidUnicodeValue(_, '}')) => {}
            other => panic!("unexpected: {:?}", other),
        }
    }
    assert_eq!("\u{d7ff}\u{e000}", unescape("\\u{d7ff}\\u{e000}").unwrap());
    assert_eq!("\u{d7ff}", unescape("\\u{d7ff}").unwrap());
    assert_eq!("\u{e000}", unescape("\\u{e000}").unwrap());
    assert_eq!("\u{10ffff}", unescape("\\u{10ffff}").unwrap());
    assert_eq!("\u{10ffff}", unescape("\\u{0010FFFF}").unwrap());
}

#[test]
fn value_is_too_large_at_the_digit_that_exceeds_the_range() {
    match unescape("\\u{110000}") {
        Err(UnescapeError::HexValueTooLarge(prefix, '0')) => assert_eq!("\\u{11000", prefix),
        other => panic!("unexpected: {:?}", other),
    }
    match unescape("ab\\u{ffffff}") {
        Err(UnescapeError::HexValueTooLarge(prefix, 'f')) => assert_eq!("ab\\u{fffff", prefix),
        other => panic!("unexpected: {:?}", other),
    }
}

#[test]
fn each_error_holds_the_input_in_front_of_the_culprit() {
    match unescape("né \\q rest") {
        Err(UnescapeError::BadEscape(prefix, 'q')) => assert_eq!("né \\", prefix),
        other => panic!("unexpected: {:?}", other),
    }
    match unescape("\\u[41]") {
        Err(UnescapeError::MissingOpenBrace(prefix, '[')) => assert_eq!("\\u", prefix),
        other => panic!("unexpected: {:?}", other),
    }
    match unescape("\\u{4g}") {
        Err(UnescapeError::NonHexDigit(prefix, 'g')) => assert_eq!("\\u{4", prefix),
        other => panic!("unexpected: {:?}", other),
    }
    match unescape("\\u{ 41}") {
        Err(UnescapeError::NonHexDigit(prefix, ' ')) => assert_eq!("\\u{", prefix),
        other => panic!("unexpected: {:?}", other),
    }
}

#[test]
fn ordinary_text_follows_an_escape_unharmed() {
    assert_eq!(
        "This isn't\nna\u{ef}ve",
        unescape("This isn\\'t\\nna\\u{ef}ve").unwrap()
    );
    assert_eq!("\tn", unescape("\\tn").unwrap());
    assert_eq!("\ta", unescape("\\ta").unwrap());
    assert_eq!("\tt", unescape("\\tt").unwrap());
    assert_eq!("a\tb", unescape("a\\tb").unwrap());
    assert_eq!("a\\b", unescape("a\\\\b").unwrap());
    assert_eq!("say \"hi\" twice", unescape("say \\\"hi\\\" twice").unwrap());
    assert_eq!("A\tu{42}", unescape("\\u{41}\\tu{42}").unwrap());
    assert_eq!("A\tB", unescape("\\u{41}\\t\\u{42}").unwrap());
}

#[test]
fn each_escape_needs_its_own_backslash() {
    assert_eq!("a\t\\\"'\n\r", unescape("a\\t\\\\\\\"\\'\\n\\r").unwrap());
    match unescape("\\t\\q") {
        Err(UnescapeError::BadEscape(prefix, 'q')) => assert_eq!("\\t\\", prefix),
        other => panic!("unexpected: {:?}", other),
    }
    match unescape("isn\\'u\\{ef}") {
        Err(UnescapeError::BadEscape(prefix, '{')) => assert_eq!("isn\\'u\\", prefix),
        other => panic!("unexpected: {:?}", other),
    }
}

#[test]
fn escape_cut_short_by_the_end_adds_nothing() {
    assert_eq!("", unescape("").unwrap());
    assert_eq!("abc", unescape("abc\\").unwrap());
    assert_eq!("abc", unescape("abc\\u").unwrap());
    assert_eq!("abc", unescape("abc\\u{").unwrap());
    assert_eq!("abc", unescape("abc\\u{41").unwrap());
    assert_eq!("\0", unescape("\\u{}").unwrap());
}

#[test]
fn hexadecimal_digits_are_those_of_the_standard_library() {
    let mut code: u32 = 0;
    while code <= 0x10FFFF {
        if let Some(c) = char::from_u32(code) {
            assert_eq!(c.to_digit(16), hex_digit(c), "U+{:04X}", code);
        }
        code += 1;
    }
    assert_eq!(Some(10), hex_digit('a'));
    assert_eq!(Some(15), hex_digit('F'));
    assert_eq!(Some(9), hex_digit('9'));
    assert_eq!(None, hex_digit('g'));
}

#[test]
fn input_without_escapes_is_handed_back_without_a_copy() {
    assert!(matches!(unescape("ordinary"), Ok(Cow::Borrowed("ordinary"))));
    assert!(matches!(unescape(""), Ok(Cow::Borrowed(""))));
    assert!(matches!(unescape("a\\tb"), Ok(Cow::Owned(_))));
    assert!(matches!(unescape("a\\t"), Ok(Cow::Owned(_))));
    assert!(matches!(unescape("a\\q"), Err(_)));
}
