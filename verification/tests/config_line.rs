use finl_charsub::charsub::{parse_charsub_config_line, CharSubError, CharSubMachine};
use finl_charsub::text::is_whitespace;

#[test]
fn blank_lines_and_comments_ignored() {
    assert_eq!(None, parse_charsub_config_line("").unwrap());
    assert_eq!(None, parse_charsub_config_line(" ").unwrap());
    assert_eq!(None, parse_charsub_config_line("\t").unwrap());
    assert_eq!(None, parse_charsub_config_line("  Comment").unwrap());
    assert_eq!(None, parse_charsub_config_line("\u{a0}Comment").unwrap());
    assert_eq!(
        Some(("a".to_string(), "b".to_string())),
        parse_charsub_config_line("a b comment").unwrap()
    );
}

#[test]
fn basic_maps_work_correctly() {
    assert_eq!(
        Some(("``".to_string(), "”".to_string())),
        parse_charsub_config_line("``   \u{201D}").unwrap()
    );
    assert_eq!(
        Some(("---".to_string(), "—".to_string())),
        parse_charsub_config_line("---\t\u{2014}").unwrap()
    );
}

#[test]
fn missing_map_to_value_gives_error() {
    assert_eq!(true, parse_charsub_config_line("wrong  ").is_err());
    assert_eq!(true, parse_charsub_config_line("alsoWrong").is_err());
}

#[test]
fn missing_map_to_value_holds_the_line() {
    match parse_charsub_config_line("wrong  ") {
        Err(CharSubError::MissingMapToValue(line)) => assert_eq!("wrong  ", line),
        other => panic!("unexpected: {:?}", other),
    }
    let error = parse_charsub_config_line("alsoWrong").unwrap_err();
    assert_eq!("Missing Map-to value in line: alsoWrong", error.message());
}

#[test]
fn tokens_end_at_any_white_space() {
    assert_eq!(
        Some(("a".to_string(), "b".to_string())),
        parse_charsub_config_line("a\u{a0}b\u{2003}rest of the line").unwrap()
    );
    assert_eq!(
        Some(("x".to_string(), "y".to_string())),
        parse_charsub_config_line("x \t \u{3000} y").unwrap()
    );
    assert_eq!(
        Some(("x".to_string(), "y".to_string())),
        parse_charsub_config_line("x y ").unwrap()
    );
    assert_eq!(
        Some(("\\u{2019}".to_string(), "'".to_string())),
        parse_charsub_config_line("\\u{2019} ' the other way").unwrap()
    );
}

#[test]
fn white_space_is_what_the_standard_library_calls_so() {
    let mut code: u32 = 0;
    while code <= 0x10FFFF {
        if let Some(c) = char::from_u32(code) {
            assert_eq!(c.is_whitespace(), is_whitespace(c), "U+{:04X}", code);
        }
        code += 1;
    }
}

#[test]
fn first_two_tokens_are_those_of_split_whitespace() {
    for line in ["a b", "a  b  c", "``\t\u{201C} opening quotes", "x\u{2028}y z", "p q\u{a0}"] {
        let mut words = line.split_whitespace();
        let expected = (words.next().unwrap().to_string(), words.next().unwrap().to_string());
        assert_eq!(Some(expected), parse_charsub_config_line(line).unwrap());
    }
}

fn lines(text: &[&str]) -> Vec<String> {
    text.iter().map(|line| line.to_string()).collect()
}

#[test]
fn rules_from_lines_apply_to_tex_notation() {
    let file = lines(&[
        "   Quotation marks",
        "``\t\u{201C}",
        "''\t\u{201D}",
        "`\t\u{2018}",
        "'\t\u{2019}   apostrophe too",
        "",
        "\tDashes",
        "---\t\u{2014}",
        "--\t\u{2013}",
        "?`\t\u{BF}",
    ]);
    let mut machine = CharSubMachine::from_lines(&file).unwrap();
    assert_eq!(
        "“¿what?”—he’s thinking",
        machine.process("``?`what?''---he's thinking")
    );
}

#[test]
fn reading_stops_at_the_first_line_without_an_output() {
    let file = lines(&["a b", "broken", "c d", "alsoBroken"]);
    match CharSubMachine::from_lines(&file) {
        Err(CharSubError::MissingMapToValue(line)) => assert_eq!("broken", line),
        Ok(_) => panic!("the second line has no output"),
    }
}

#[test]
fn no_lines_give_a_machine_without_rules() {
    let mut machine = CharSubMachine::from_lines(&Vec::new()).unwrap();
    assert_eq!("a b", machine.process("a b"));
    assert_eq!("", machine.flush());
}

#[test]
fn line_that_overwrites_a_rule_says_so() {
    let mut machine = CharSubMachine::new();
    assert!(machine.load_line("a b").unwrap().is_none());
    assert!(machine.load_line(" a c").unwrap().is_none());
    assert!(machine.load_line("").unwrap().is_none());
    let notice = machine.load_line("a c and why").unwrap().unwrap();
    assert_eq!("a", notice.input);
    assert_eq!("b", notice.former);
    assert_eq!("c", notice.output);
    assert_eq!("c", machine.process("a"));
    assert!(machine.load_line("a").is_err());
    assert_eq!("c", machine.process("a"));
}
