use finl_charsub::charsub::CharSubMachine;
use std::borrow::Cow;

#[test]
fn char_sub_machine_returns_original_string_when_no_substitution() {
    let mut char_sub_machine = CharSubMachine::new();
    assert_eq!("original", char_sub_machine.process("original"));
    char_sub_machine.add_substitution("'", "’");
    assert_eq!("original", char_sub_machine.process("original"));
}

#[test]
fn char_sub_machine_handles_substitutions_mid_string() {
    let mut char_sub_machine = CharSubMachine::new();
    char_sub_machine.add_substitution("'", "’");
    char_sub_machine.add_substitution("''", "”");
    assert_eq!("it’s", char_sub_machine.process("it's"));
}

#[test]
fn char_sub_machine_handles_substitutions_at_end() {
    let mut char_sub_machine = CharSubMachine::new();
    char_sub_machine.add_substitution("'", "’");
    char_sub_machine.add_substitution("''", "”");
    assert_eq!("when”", char_sub_machine.process("when''"));
    assert_eq!("", char_sub_machine.process("'"));
    assert_eq!(Some("'".to_string()), char_sub_machine.unprocessed());
    assert_eq!("”", char_sub_machine.process("'"));
}

#[test]
fn char_sub_machine_can_handle_more_than_one_substitution() {
    let mut char_sub_machine = CharSubMachine::new();
    char_sub_machine.add_substitution("'", "’");
    char_sub_machine.add_substitution("''", "”");
    char_sub_machine.add_substitution("`", "‘");
    char_sub_machine.add_substitution("``", "“");
    assert_eq!("“it’s”", char_sub_machine.process("``it's''"));
}

#[test]
fn char_sub_machine_handles_stopping_mid_substitution_ok() {
    let mut char_sub_machine = CharSubMachine::new();
    char_sub_machine.add_substitution("'", "’");
    char_sub_machine.add_substitution("''", "”");
    char_sub_machine.add_substitution("`", "‘");
    char_sub_machine.add_substitution("``", "“");
    assert_eq!("if", char_sub_machine.process("if'"));
    assert_eq!("’", char_sub_machine.flush());
    assert_eq!("", char_sub_machine.flush());
}

#[test]
fn char_sub_machine_handles_substitutions_where_initial_or_middle_sequences_dont_terminate() {
    let mut char_sub_machine = CharSubMachine::new();
    char_sub_machine.add_substitution("ABC", "$$");
    char_sub_machine.add_substitution("DEF", "!!");
    assert_eq!("AB!!", char_sub_machine.process("ABDEF"));
    // What about the end?
    assert_eq!("$$", char_sub_machine.process("ABCDE"));
    assert_eq!("DE", char_sub_machine.flush());
    assert_eq!("", char_sub_machine.flush());

    char_sub_machine = CharSubMachine::new();
    char_sub_machine.add_substitution("12", "@");
    char_sub_machine.add_substitution("123", "#");
    assert_eq!("1 @ #", char_sub_machine.process("1 12 123"));
}

#[test]
fn flush_will_correctly_handle_a_dead_end_substitution() {
    let mut char_sub_machine = CharSubMachine::new();
    char_sub_machine.add_substitution("A", "a");
    char_sub_machine.add_substitution("ABC", "b");
    assert_eq!("", char_sub_machine.process("AB"));
    assert_eq!("aB".to_string(), char_sub_machine.flush());
}

fn quotes() -> CharSubMachine {
    let mut machine = CharSubMachine::new();
    machine.add_substitution("'", "’");
    machine.add_substitution("''", "”");
    machine.add_substitution("`", "‘");
    machine.add_substitution("``", "“");
    machine.add_substitution("---", "—");
    machine.add_substitution("--", "–");
    machine.add_substitution("?`", "¿");
    machine
}

/// Feeds `text` cut after `cut` characters and returns everything that comes
/// out, the final flush included.
fn in_two_chunks(machine: &mut CharSubMachine, text: &str, cut: usize) -> String {
    let head: String = text.chars().take(cut).collect();
    let tail: String = text.chars().skip(cut).collect();
    let mut out = machine.process(&head).into_owned();
    out.push_str(&machine.process(&tail));
    out.push_str(&machine.flush());
    out
}

#[test]
fn machine_without_rules_returns_every_text_unchanged() {
    let mut machine = CharSubMachine::new();
    for text in ["", "a", "plain text", "``quotes'' --- and \\ more", "naïve — ¿qué?"] {
        assert_eq!(text, machine.process(text));
        assert_eq!(None, machine.unprocessed());
        assert_eq!("", machine.flush());
    }
}

#[test]
fn longer_rule_wins_over_its_prefix() {
    let mut machine = CharSubMachine::new();
    machine.add_substitution("'", "’");
    machine.add_substitution("''", "”");
    assert_eq!("it’s", machine.process("it's"));
    assert_eq!("when”", machine.process("when''"));
    assert_eq!("”’x", machine.process("'''x"));
}

#[test]
fn candidate_is_carried_over_to_the_next_chunk() {
    let mut machine = CharSubMachine::new();
    machine.add_substitution("A", "a");
    machine.add_substitution("ABC", "b");
    assert_eq!("", machine.process("AB"));
    assert_eq!(Some("AB".to_string()), machine.unprocessed());
    assert_eq!("b", machine.process("C"));
    assert_eq!(None, machine.unprocessed());
    assert_eq!("", machine.flush());
}

#[test]
fn carried_candidate_that_dead_ends_falls_back_to_the_shorter_rule() {
    let mut machine = CharSubMachine::new();
    machine.add_substitution("A", "a");
    machine.add_substitution("ABC", "b");
    assert_eq!("", machine.process("AB"));
    assert_eq!("aBX", machine.process("X"));
    assert_eq!("", machine.flush());
}

#[test]
fn rest_of_a_dead_end_is_literal_and_not_matched_again() {
    let mut machine = CharSubMachine::new();
    machine.add_substitution("A", "a");
    machine.add_substitution("ABC", "b");
    machine.add_substitution("B", "!");
    assert_eq!("aBX", machine.process("ABX"));
    assert_eq!("!X", machine.process("BX"));
}

#[test]
fn dead_end_without_a_matching_prefix_is_literal() {
    let mut machine = CharSubMachine::new();
    machine.add_substitution("ABC", "$$");
    machine.add_substitution("DEF", "!!");
    assert_eq!("AB!!", machine.process("ABDEF"));
    assert_eq!("ABxAB", machine.process("ABxABA"));
    assert_eq!(Some("A".to_string()), machine.unprocessed());
    assert_eq!("A", machine.process("D"));
    assert_eq!(Some("D".to_string()), machine.unprocessed());
    assert_eq!("D", machine.flush());
}

#[test]
fn dangling_candidate_without_a_rule_is_flushed_as_it_is() {
    let mut machine = CharSubMachine::new();
    machine.add_substitution("ABC", "$$");
    machine.add_substitution("DEF", "!!");
    assert_eq!("AB", machine.process("ABDE"));
    assert_eq!(Some("DE".to_string()), machine.unprocessed());
    assert_eq!("DE", machine.flush());
}

#[test]
fn flush_returns_its_content_once() {
    let mut machine = quotes();
    assert_eq!("", machine.flush());
    assert_eq!("", machine.flush());
    assert_eq!("so ", machine.process("so --"));
    assert_eq!("–", machine.flush());
    assert_eq!("", machine.flush());
    assert_eq!("", machine.flush());
}

#[test]
fn rule_that_cannot_grow_is_replaced_at_the_end_of_the_chunk() {
    let mut machine = quotes();
    assert_eq!("a—", machine.process("a---"));
    assert_eq!(None, machine.unprocessed());
    assert_eq!("a", machine.process("a--"));
    assert_eq!(Some("--".to_string()), machine.unprocessed());
    assert_eq!("–a", machine.process("a"));
}

#[test]
fn empty_chunk_keeps_what_is_carried_over() {
    let mut machine = quotes();
    assert_eq!("", machine.process("`"));
    assert_eq!("", machine.process(""));
    assert_eq!(Some("`".to_string()), machine.unprocessed());
    assert_eq!("“", machine.process("`"));
}

#[test]
fn text_without_rule_characters_is_unchanged_in_any_chunking() {
    let text = "plain text, nothing to replace: naïve ätsch 0123";
    let length = text.chars().count();
    for cut in 0..=length {
        let mut machine = quotes();
        assert_eq!(text, in_two_chunks(&mut machine, text, cut));
    }
    let mut machine = quotes();
    assert_eq!(text, machine.process(text));
    assert_eq!(None, machine.unprocessed());
}

#[test]
fn cutting_a_text_anywhere_gives_the_same_result() {
    let text = "``?`what?''---he's thinking -- 'twas ````so'''' ---- -";
    let mut machine = quotes();
    let mut whole = machine.process(text).into_owned();
    whole.push_str(&machine.flush());
    assert_eq!("“¿what?”—he’s thinking – ’twas ““so”” —- -", whole);
    let length = text.chars().count();
    for cut in 0..=length {
        let mut machine = quotes();
        assert_eq!(whole, in_two_chunks(&mut machine, text, cut));
    }
}

#[test]
fn rules_may_hold_characters_of_several_bytes() {
    let mut machine = CharSubMachine::new();
    machine.add_substitution("→", "->");
    machine.add_substitution("→→", "=>");
    machine.add_substitution("ñ", "n~");
    assert_eq!("a->b", machine.process("a→b"));
    assert_eq!("=>n~ä", machine.process("→→ñä"));
    assert_eq!("ä", machine.process("ä→"));
    assert_eq!(Some("→".to_string()), machine.unprocessed());
    assert_eq!("->", machine.flush());
}

#[test]
fn last_registration_for_an_input_wins() {
    let mut machine = CharSubMachine::new();
    assert_eq!(None, machine.add_substitution("x", "1"));
    assert_eq!(None, machine.add_substitution("xy", "2"));
    assert_eq!(Some("1".to_string()), machine.add_substitution("x", "3"));
    assert_eq!("3z2", machine.process("xzxy"));
}

#[test]
fn empty_input_is_ignored_and_empty_output_deletes() {
    let mut machine = CharSubMachine::new();
    assert_eq!(None, machine.add_substitution("", "never"));
    assert_eq!(None, machine.add_substitution("", "again"));
    assert_eq!("text", machine.process("text"));
    assert_eq!("", machine.flush());
    machine.add_substitution("x", "");
    assert_eq!("te", machine.process("texxx"));
}

#[test]
fn rule_added_between_chunks_applies_to_what_is_carried_over() {
    let mut machine = CharSubMachine::new();
    machine.add_substitution("ABC", "1");
    assert_eq!("", machine.process("AB"));
    machine.add_substitution("AB", "2");
    assert_eq!("2", machine.flush());
}

#[test]
fn untouched_chunk_is_handed_back_without_a_copy() {
    let mut machine = quotes();
    assert!(matches!(machine.process("nothing to do"), Cow::Borrowed("nothing to do")));
    assert!(matches!(machine.process(""), Cow::Borrowed("")));
    assert!(matches!(machine.process("it's"), Cow::Owned(_)));
    assert_eq!("", machine.process("-"));
    assert!(matches!(machine.process("plain"), Cow::Owned(_)));
    assert_eq!("", machine.flush());
    assert!(matches!(machine.process("plain"), Cow::Borrowed("plain")));
}
