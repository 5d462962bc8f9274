//! The substitution engine.
//!
//! A [`CharSubMachine`] holds a rule set and, between calls, the end of the
//! text seen so far where that end may still grow into a match. Text is fed
//! with [`CharSubMachine::process`] in chunks of any size; the results of the
//! calls, followed by the result of a final [`CharSubMachine::flush`], are
//! the whole text with the rules applied.

use crate::matching::{
    foreign_text_is_unchanged, is_candidate, is_foreign, lemma_candidate_prefix,
    lemma_candidate_survives_insert, lemma_closed_candidate_is_rule, lemma_resolve_of_rule,
    lemma_scan_concat, lemma_scan_next, longest_match, no_rules_is_identity, process_chunk,
    resolve, scan, start, step, valid_pending, Rules, Scan,
};
use crate::text::{is_white_space, is_whitespace};
use crate::trie::SubstitutionTrie;
use std::borrow::Cow;
use vstd::prelude::*;
use vstd::string::StringExecFns;

verus! {

/// A machine that substitutes character sequences in text that arrives in
/// chunks. It is not meant to be shared between threads.
pub struct CharSubMachine {
    trie: SubstitutionTrie,
    unprocessed: Option<String>,
}

/// Where a scan stands: the node reached in the rule index, the candidate
/// that led there, and the text emitted so far.
struct Cursor {
    node: usize,
    in_substitution: bool,
    held: String,
    built: String,
}

impl View for Cursor {
    type V = Scan;

    closed spec fn view(&self) -> Scan {
        Scan { emitted: self.built@, candidate: self.held@ }
    }
}

impl Cursor {
    spec fn fits(&self, trie: &SubstitutionTrie) -> bool {
        &&& trie.is_node(self.node)
        &&& trie.path_of(self.node) == self.held@
        &&& self.in_substitution == (self.held@.len() > 0)
        &&& valid_pending(trie@, self.held@)
    }
}

impl CharSubMachine {
    /// The rules registered so far.
    pub closed spec fn rules(&self) -> Rules {
        self.trie@
    }

    /// The candidate carried over from the last call of `process`; empty when
    /// nothing is carried over.
    pub closed spec fn pending(&self) -> Seq<char> {
        match self.unprocessed {
            Some(text) => text@,
            None => Seq::empty(),
        }
    }

    /// The invariant of the machine: the index is sound, and what is carried
    /// over is a candidate of the rule set.
    pub closed spec fn wf(&self) -> bool {
        &&& self.trie.wf()
        &&& match self.unprocessed {
            Some(text) => is_candidate(self.trie@, text@),
            None => true,
        }
    }

    /// What a well-formed machine carries over is absent or a candidate, and
    /// the empty sequence is the input of none of its rules.
    pub proof fn lemma_wf_consequences(&self)
        requires
            self.wf(),
        ensures
            valid_pending(self.rules(), self.pending()),
            !self.rules().dom().contains(Seq::<char>::empty()),
    {
        self.trie.lemma_empty_input_is_no_rule();
    }

    /// A machine without rules that carries nothing over.
    pub fn new() -> (machine: CharSubMachine)
        ensures
            machine.wf(),
            machine.rules() == Rules::empty(),
            machine.pending() == Seq::<char>::empty(),
    {
        CharSubMachine { trie: SubstitutionTrie::new(), unprocessed: None }
    }

    /// Registers the rule `input` -> `output`. The last registration for an
    /// input wins; the output it replaces is handed back so that the caller
    /// can report the overwrite. An empty input can never match and is
    /// ignored.
    pub fn add_substitution(&mut self, input: &str, output: &str) -> (replaced: Option<String>)
        requires
            old(self).wf(),
        ensures
            final(self).wf(),
            final(self).pending() == old(self).pending(),
            final(self).rules() == if input@.len() == 0 {
                old(self).rules()
            } else {
                old(self).rules().insert(input@, output@)
            },
            match replaced {
                Some(former) => input@.len() > 0 && old(self).rules().dom().contains(input@)
                    && former@ == old(self).rules()[input@],
                None => input@.len() == 0 || !old(self).rules().dom().contains(input@),
            },
    {
        let replaced = self.trie.add(input, output);
        proof {
            if input@.len() > 0 && self.pending().len() > 0 {
                lemma_candidate_survives_insert(
                    old(self).trie@,
                    self.pending(),
                    input@,
                    output@,
                );
            }
        }
        replaced
    }

    /// What is carried over to the next call of `process`, if anything.
    pub fn unprocessed(&self) -> (held: Option<String>)
        requires
            self.wf(),
        ensures
            match held {
                Some(text) => text@.len() > 0 && text@ == self.pending(),
                None => self.pending().len() == 0,
            },
    {
        match &self.unprocessed {
            Some(text) => Some(text.clone()),
            None => None,
        }
    }

    /// Reads one line of a rule file and registers the rule it holds, if
    /// any. Where the rule overwrites another, the result says so.
    pub fn load_line(&mut self, line: &str) -> (result: Result<Option<Overwrite>, CharSubError>)
        requires
            old(self).wf(),
        ensures
            final(self).wf(),
            final(self).pending() == old(self).pending(),
            final(self).rules() == rules_after_line(old(self).rules(), line@),
            match parse_line(line@) {
                Line::Comment => result matches Ok(None),
                Line::Incomplete => result matches Err(CharSubError::MissingMapToValue(text))
                    && text@ == line@,
                Line::Rule(input, output) => match result {
                    Ok(Some(notice)) => {
                        &&& old(self).rules().dom().contains(input)
                        &&& notice.input@ == input
                        &&& notice.former@ == old(self).rules()[input]
                        &&& notice.output@ == output
                    },
                    Ok(None) => !old(self).rules().dom().contains(input),
                    Err(_) => false,
                },
            },
    {
        match parse_charsub_config_line(line) {
            Err(error) => Err(error),
            Ok(None) => Ok(None),
            Ok(Some((input, output))) => {
                proof {
                    lemma_rule_input_is_not_empty(line@);
                }
                match self.add_substitution(input.as_str(), output.as_str()) {
                    Some(former) => Ok(Some(Overwrite { input, former, output })),
                    None => Ok(None),
                }
            },
        }
    }

    /// A machine with the rules that the lines of a rule file hold, read in
    /// order. The first line that names an input without an output ends the
    /// reading and is returned in the error.
    pub fn from_lines(lines: &Vec<String>) -> (result: Result<CharSubMachine, CharSubError>)
        ensures
            match result {
                Ok(machine) => {
                    &&& machine.wf()
                    &&& machine.pending() == Seq::<char>::empty()
                    &&& load(lines.deep_view()) == Ok::<Rules, Seq<char>>(machine.rules())
                },
                Err(CharSubError::MissingMapToValue(text)) => load(lines.deep_view()) == Err::<
                    Rules,
                    Seq<char>,
                >(text@),
            },
    {
        let mut machine = CharSubMachine::new();
        let ghost all = lines.deep_view();
        let mut i: usize = 0;
        while i < lines.len()
            invariant
                i <= lines.len(),
                all == lines.deep_view(),
                machine.wf(),
                machine.pending() == Seq::<char>::empty(),
                load(all.take(i as int)) == Ok::<Rules, Seq<char>>(machine.rules()),
            decreases lines.len() - i,
        {
            proof {
                assert(all.take(i + 1).drop_last() =~= all.take(i as int));
            }
            match machine.load_line(lines[i].as_str()) {
                Err(error) => {
                    proof {
                        lemma_load_failure_is_final(all, i + 1);
                    }
                    return Err(error);
                },
                Ok(_) => {},
            }
            i += 1;
        }
        proof {
            assert(all.take(i as int) =~= all);
        }
        Ok(machine)
    }

    /// Applies the rules to the next chunk of text. The candidate left over
    /// from the previous call is read again in front of `input`. The end of
    /// the text is held back when it may still grow into a match; it is
    /// returned by a later call or by `flush`. Where nothing was left over and
    /// no character of `input` begins a rule, `input` itself is handed back
    /// and nothing is copied.
    pub fn process<'a>(&mut self, input: &'a str) -> (result: Cow<'a, str>)
        requires
            old(self).wf(),
        ensures
            final(self).wf(),
            final(self).rules() == old(self).rules(),
            result@ == process_chunk(old(self).rules(), old(self).pending(), input@).emitted,
            final(self).pending() == process_chunk(
                old(self).rules(),
                old(self).pending(),
                input@,
            ).candidate,
            old(self).rules() == Rules::empty() ==> result@ == input@ && final(self).pending()
                == Seq::<char>::empty(),
    {
        let ghost rules = self.trie@;
        let ghost pending = self.pending();
        proof {
            no_rules_is_identity(input@);
        }
        if self.unprocessed.is_none() && self.is_foreign(input) {
            proof {
                foreign_text_is_unchanged(rules, input@);
            }
            return Cow::Borrowed(input);
        }
        let mut cursor = Cursor {
            node: self.trie.root(),
            in_substitution: false,
            held: String::new(),
            built: String::new(),
        };
        if let Some(unprocessed) = self.unprocessed.take() {
            self.feed(&mut cursor, unprocessed.as_str());
        }
        self.feed(&mut cursor, input);
        proof {
            lemma_scan_concat(rules, start(), pending, input@);
        }
        if cursor.in_substitution {
            if self.trie.is_leaf(cursor.node) {
                proof {
                    lemma_closed_candidate_is_rule(rules, cursor.held@);
                }
                if let Some(substitution) = self.trie.output_at(cursor.node) {
                    cursor.built.append(substitution.as_str());
                }
            } else {
                self.unprocessed = Some(cursor.held);
            }
        }
        Cow::Owned(cursor.built)
    }

    /// Whether no character of `text` begins the input of a rule.
    fn is_foreign(&self, text: &str) -> (foreign: bool)
        requires
            self.trie.wf(),
        ensures
            foreign == is_foreign(self.trie@, text@),
    {
        let root = self.trie.root();
        for c in it: text.chars()
            invariant
                it.seq() == text@,
                self.trie.wf(),
                self.trie.is_node(root),
                self.trie.path_of(root) == Seq::<char>::empty(),
                is_foreign(self.trie@, text@.take(it.index())),
        {
            proof {
                assert(Seq::<char>::empty().push(c) =~= seq![c]);
            }
            if self.trie.descend(root, c).is_some() {
                proof {
                    assert(is_candidate(self.trie@, seq![text@[it.index()]]));
                }
                return false;
            }
            proof {
                let seen = text@.take(it.index() + 1);
                assert forall|i: int| 0 <= i < seen.len() implies !is_candidate(
                    self.trie@,
                    seq![#[trigger] seen[i]],
                ) by {
                    if i < it.index() {
                        assert(seen[i] == text@.take(it.index())[i]);
                    }
                }
            }
        }
        proof {
            assert(text@.take(text@.len() as int) =~= text@);
        }
        true
    }

    /// Reads `text` from where `cursor` stands.
    fn feed(&self, cursor: &mut Cursor, text: &str)
        requires
            self.trie.wf(),
            old(cursor).fits(&self.trie),
        ensures
            final(cursor).fits(&self.trie),
            final(cursor)@ == scan(self.trie@, old(cursor)@, text@),
    {
        let ghost rules = self.trie@;
        let ghost initial = cursor@;
        for c in it: text.chars()
            invariant
                it.seq() == text@,
                rules == self.trie@,
                self.trie.wf(),
                cursor.fits(&self.trie),
                cursor@ == scan(rules, initial, text@.take(it.index())),
        {
            let ghost before = cursor@;
            proof {
                lemma_scan_next(rules, initial, text@, it.index());
                assert(Seq::<char>::empty().push(c) =~= seq![c]);
            }
            let mut next = self.trie.descend(cursor.node, c);
            if cursor.in_substitution && next.is_none() {
                // The candidate has come to a dead end.
                match self.trie.output_at(cursor.node) {
                    Some(substitution) => {
                        proof {
                            lemma_resolve_of_rule(rules, before.candidate);
                        }
                        cursor.built.append(substitution.as_str());
                    },
                    None => {
                        let (substitution, remainder) = self._flush_substitution(
                            cursor.held.as_str(),
                        );
                        cursor.built.append(substitution.as_str());
                        if let Some(rest) = remainder {
                            cursor.built.append(rest.as_str());
                        }
                    },
                }
                assert(cursor.built@ =~= before.emitted + resolve(rules, before.candidate));
                cursor.held = String::new();
                cursor.in_substitution = false;
                cursor.node = self.trie.root();
                next = self.trie.descend(cursor.node, c);
            }
            match next {
                Some(child) => {
                    cursor.held.push(c);
                    cursor.in_substitution = true;
                    cursor.node = child;
                },
                None => {
                    cursor.built.push(c);
                },
            }
            assert(cursor@ =~= step(rules, before, c));
        }
        proof {
            assert(text@.take(text@.len() as int) =~= text@);
        }
    }

    /// Returns whatever is still carried over, resolved as a candidate that
    /// will not grow any further, and carries nothing over afterwards. With
    /// nothing carried over the result is empty.
    pub fn flush(&mut self) -> (result: String)
        requires
            old(self).wf(),
        ensures
            final(self).wf(),
            final(self).rules() == old(self).rules(),
            final(self).pending() == Seq::<char>::empty(),
            result@ == resolve(old(self).rules(), old(self).pending()),
            old(self).pending() == Seq::<char>::empty() ==> result@ == Seq::<char>::empty(),
            old(self).rules() == Rules::empty() ==> result@ == Seq::<char>::empty(),
    {
        proof {
            no_rules_is_identity(Seq::empty());
        }
        match self.unprocessed.take() {
            None => String::new(),
            Some(unprocessed) => {
                let (mut substitution, remainder) = self._flush_substitution(
                    unprocessed.as_str(),
                );
                if let Some(rest) = remainder {
                    substitution.append(rest.as_str());
                }
                proof {
                    let n = longest_match(self.trie@, unprocessed@) as int;
                    assert(n == unprocessed@.len() ==> unprocessed@.skip(n) =~= Seq::<
                        char,
                    >::empty());
                }
                substitution
            },
        }
    }

    /// Resolves a candidate that has stopped growing: the replacement of its
    /// longest prefix that is the input of a rule, and beside it the rest of
    /// the candidate, which stays literal. A candidate none of whose prefixes
    /// is the input of a rule comes back unchanged.
    fn _flush_substitution(&self, input: &str) -> (result: (String, Option<String>))
        requires
            self.trie.wf(),
            is_candidate(self.trie@, input@),
        ensures
            ({
                let n = longest_match(self.trie@, input@) as int;
                &&& result.0@ == if n == 0 {
                    input@
                } else {
                    self.trie@[input@.take(n)]
                }
                &&& match result.1 {
                    Some(rest) => 0 < n < input@.len() && rest@ == input@.skip(n),
                    None => n == 0 || n == input@.len(),
                }
            }),
    {
        let ghost rules = self.trie@;
        let mut node = self.trie.root();
        let mut matched: Option<&String> = None;
        let mut rest = String::new();
        proof {
            assert(input@.take(0).skip(0) =~= Seq::<char>::empty());
        }
        for c in it: input.chars()
            invariant
                it.seq() == input@,
                rules == self.trie@,
                self.trie.wf(),
                is_candidate(rules, input@),
                self.trie.is_node(node),
                self.trie.path_of(node) == input@.take(it.index()),
                longest_match(rules, input@.take(it.index())) <= it.index(),
                match matched {
                    Some(substitution) => longest_match(rules, input@.take(it.index())) > 0
                        && substitution@ == rules[input@.take(
                        longest_match(rules, input@.take(it.index())) as int,
                    )],
                    None => longest_match(rules, input@.take(it.index())) == 0,
                },
                rest@ == input@.take(it.index()).skip(
                    longest_match(rules, input@.take(it.index())) as int,
                ),
        {
            let ghost i = it.index();
            let ghost seen = input@.take(i);
            let ghost reached = input@.take(i + 1);
            let ghost n = longest_match(rules, seen) as int;
            proof {
                // Every prefix of a candidate is a candidate, so the way
                // down the index goes on.
                lemma_candidate_prefix(rules, input@, i + 1);
                assert(reached.drop_last() =~= seen);
                assert(seen.push(c) =~= reached);
            }
            if let Some(child) = self.trie.descend(node, c) {
                node = child;
            }
            match self.trie.output_at(node) {
                Some(substitution) => {
                    matched = Some(substitution);
                    rest = String::new();
                    proof {
                        assert(reached.take(i + 1) =~= reached);
                        assert(reached.skip(i + 1) =~= Seq::<char>::empty());
                    }
                },
                None => {
                    rest.push(c);
                    proof {
                        assert(reached.take(n) =~= seen.take(n));
                        assert(reached.skip(n) =~= seen.skip(n).push(c));
                    }
                },
            }
        }
        proof {
            assert(input@.take(input@.len() as int) =~= input@);
            assert(input@.skip(0) =~= input@);
        }
        match matched {
            Some(substitution) => {
                let remainder = if rest.as_str().is_empty() {
                    None
                } else {
                    Some(rest)
                };
                (substitution.clone(), remainder)
            },
            None => (rest, None),
        }
    }
}

/// What goes wrong when rules are read from text.
#[derive(Debug)]
pub enum CharSubError {
    /// A line names an input but no output. The field is the line. Rules
    /// that delete their input are not supported.
    MissingMapToValue(String),
}

/// The first position at or after `from` that holds white space, or the
/// length of the line when there is none.
pub open spec fn token_end(line: Seq<char>, from: int) -> int
    decreases line.len() - from,
{
    if from < 0 || from >= line.len() || is_white_space(line[from]) {
        from
    } else {
        token_end(line, from + 1)
    }
}

/// The first position at or after `from` that holds no white space, or the
/// length of the line when there is none.
pub open spec fn gap_end(line: Seq<char>, from: int) -> int
    decreases line.len() - from,
{
    if from < 0 || from >= line.len() || !is_white_space(line[from]) {
        from
    } else {
        gap_end(line, from + 1)
    }
}

/// What a line of a rule file says.
pub enum Line {
    /// Nothing: the line is empty or begins with white space.
    Comment,
    /// A rule: the first token is its input, the second its output. What
    /// follows the second token is commentary.
    Rule(Seq<char>, Seq<char>),
    /// An input without an output.
    Incomplete,
}

/// The meaning of one line. Tokens are the stretches free of white space.
pub open spec fn parse_line(line: Seq<char>) -> Line {
    if line.len() == 0 || is_white_space(line[0]) {
        Line::Comment
    } else {
        let first_end = token_end(line, 0);
        let second_start = gap_end(line, first_end);
        if second_start >= line.len() {
            Line::Incomplete
        } else {
            Line::Rule(
                line.subrange(0, first_end),
                line.subrange(second_start, token_end(line, second_start)),
            )
        }
    }
}

/// A token that begins at `from` and holds no white space up to `i` ends
/// where the token that begins at `i` ends.
proof fn lemma_token_end_skips(line: Seq<char>, from: int, i: int)
    requires
        0 <= from <= i <= line.len(),
        forall|j: int| from <= j < i ==> !is_white_space(#[trigger] line[j]),
    ensures
        token_end(line, from) == token_end(line, i),
    decreases i - from,
{
    if from < i {
        lemma_token_end_skips(line, from + 1, i);
    }
}

/// A gap that begins at `from` and holds only white space up to `i` ends
/// where the gap that begins at `i` ends.
proof fn lemma_gap_end_skips(line: Seq<char>, from: int, i: int)
    requires
        0 <= from <= i <= line.len(),
        forall|j: int| from <= j < i ==> is_white_space(#[trigger] line[j]),
    ensures
        gap_end(line, from) == gap_end(line, i),
    decreases i - from,
{
    if from < i {
        lemma_gap_end_skips(line, from + 1, i);
    }
}

/// The rule set after a line of a rule file has been read into it. Only a
/// line that holds a rule changes anything.
pub open spec fn rules_after_line(rules: Rules, line: Seq<char>) -> Rules {
    match parse_line(line) {
        Line::Rule(input, output) => rules.insert(input, output),
        _ => rules,
    }
}

/// The rule set that the lines of a rule file hold, read in order, or the
/// first line that names an input without an output.
pub open spec fn load(lines: Seq<Seq<char>>) -> Result<Rules, Seq<char>>
    decreases lines.len(),
{
    if lines.len() == 0 {
        Ok(Rules::empty())
    } else {
        match load(lines.drop_last()) {
            Err(line) => Err(line),
            Ok(rules) => if parse_line(lines.last()) is Incomplete {
                Err(lines.last())
            } else {
                Ok(rules_after_line(rules, lines.last()))
            },
        }
    }
}

/// Once a line has failed, the lines after it change nothing.
proof fn lemma_load_failure_is_final(lines: Seq<Seq<char>>, n: int)
    requires
        0 <= n <= lines.len(),
        load(lines.take(n)) is Err,
    ensures
        load(lines) == load(lines.take(n)),
    decreases lines.len() - n,
{
    if n == lines.len() {
        assert(lines.take(n) =~= lines);
    } else {
        assert(lines.drop_last().take(n) =~= lines.take(n));
        lemma_load_failure_is_final(lines.drop_last(), n);
    }
}

/// The input of a rule is never empty: it begins with the line's first
/// character, which is no white space.
proof fn lemma_rule_input_is_not_empty(line: Seq<char>)
    ensures
        parse_line(line) matches Line::Rule(input, _) ==> input.len() > 0,
{
    if line.len() > 0 && !is_white_space(line[0]) {
        lemma_token_end_bounds(line, 1);
        assert(token_end(line, 0) == token_end(line, 1));
    }
}

/// A token ends at or after the position where it begins, and within the
/// line.
proof fn lemma_token_end_bounds(line: Seq<char>, from: int)
    requires
        0 <= from <= line.len(),
    ensures
        from <= token_end(line, from) <= line.len(),
    decreases line.len() - from,
{
    if from < line.len() && !is_white_space(line[from]) {
        lemma_token_end_bounds(line, from + 1);
    }
}

/// A rule that took the place of another when a line was read.
#[derive(Debug)]
pub struct Overwrite {
    /// The input of both rules.
    pub input: String,
    /// The output of the rule that is gone.
    pub former: String,
    /// The output of the rule that took its place.
    pub output: String,
}

impl CharSubError {
    /// The line that caused the error.
    pub open spec fn line(&self) -> Seq<char> {
        match self {
            CharSubError::MissingMapToValue(line) => line@,
        }
    }

    /// The error in words.
    pub fn message(&self) -> (text: String)
        ensures
            text@ == "Missing Map-to value in line: "@ + self.line(),
    {
        match self {
            CharSubError::MissingMapToValue(line) => {
                let mut text = "Missing Map-to value in line: ".to_owned();
                text.append(line.as_str());
                text
            },
        }
    }
}

/// Where the reader of a line stands.
enum Phase {
    /// In the first token.
    Input,
    /// Between the tokens.
    Gap,
    /// In the second token.
    Output,
    /// Behind the second token.
    Commentary,
}

/// Reads one line of a rule file: `Ok(None)` for a comment or an empty
/// line, the rule's input and output for a rule, and an error that holds the
/// line where an input has no output.
pub fn parse_charsub_config_line(line: &str) -> (result: Result<
    Option<(String, String)>,
    CharSubError,
>)
    ensures
        match parse_line(line@) {
            Line::Comment => result matches Ok(None),
            Line::Rule(input, output) => result matches Ok(Some((map_from, map_to)))
                && map_from@ == input && map_to@ == output,
            Line::Incomplete => result matches Err(CharSubError::MissingMapToValue(text))
                && text@ == line@,
        },
{
    let mut phase = Phase::Input;
    let mut map_from = String::new();
    let mut map_to = String::new();
    let ghost first_end: int = 0;
    let ghost second_start: int = 0;
    let ghost second_end: int = 0;
    for c in it: line.chars()
        invariant
            it.seq() == line@,
            it.index() > 0 ==> !is_white_space(line@[0]),
            match phase {
                Phase::Input => {
                    &&& map_from@ == line@.take(it.index())
                    &&& map_to@.len() == 0
                    &&& forall|j: int| 0 <= j < it.index() ==> !is_white_space(#[trigger] line@[j])
                },
                Phase::Gap => {
                    &&& 0 < first_end <= it.index()
                    &&& first_end == token_end(line@, 0)
                    &&& map_from@ == line@.subrange(0, first_end)
                    &&& map_to@.len() == 0
                    &&& forall|j: int|
                        first_end <= j < it.index() ==> is_white_space(#[trigger] line@[j])
                },
                Phase::Output => {
                    &&& 0 < first_end <= second_start < it.index()
                    &&& first_end == token_end(line@, 0)
                    &&& second_start == gap_end(line@, first_end)
                    &&& map_from@ == line@.subrange(0, first_end)
                    &&& map_to@ == line@.subrange(second_start, it.index())
                    &&& forall|j: int|
                        second_start <= j < it.index() ==> !is_white_space(#[trigger] line@[j])
                },
                Phase::Commentary => {
                    &&& 0 < first_end <= second_start < second_end <= it.index()
                    &&& first_end == token_end(line@, 0)
                    &&& second_start == gap_end(line@, first_end)
                    &&& second_end == token_end(line@, second_start)
                    &&& map_from@ == line@.subrange(0, first_end)
                    &&& map_to@ == line@.subrange(second_start, second_end)
                },
            },
    {
        let ghost i = it.index();
        let blank = is_whitespace(c);
        match phase {
            Phase::Input => {
                if blank {
                    if map_from.as_str().is_empty() {
                        return Ok(None);
                    }
                    proof {
                        first_end = i;
                        lemma_token_end_skips(line@, 0, i);
                        assert(line@.take(i) =~= line@.subrange(0, i));
                    }
                    phase = Phase::Gap;
                } else {
                    map_from.push(c);
                    proof {
                        assert(line@.take(i).push(c) =~= line@.take(i + 1));
                    }
                }
            },
            Phase::Gap => {
                if !blank {
                    map_to.push(c);
                    proof {
                        second_start = i;
                        lemma_gap_end_skips(line@, first_end, i);
                        assert(map_to@ =~= line@.subrange(i, i + 1));
                    }
                    phase = Phase::Output;
                }
            },
            Phase::Output => {
                if blank {
                    proof {
                        second_end = i;
                        lemma_token_end_skips(line@, second_start, i);
                    }
                    phase = Phase::Commentary;
                } else {
                    map_to.push(c);
                    proof {
                        assert(line@.subrange(second_start, i).push(c) =~= line@.subrange(
                            second_start,
                            i + 1,
                        ));
                    }
                }
            },
            Phase::Commentary => {},
        }
    }
    proof {
        let n = line@.len() as int;
        match phase {
            Phase::Input => {
                lemma_token_end_skips(line@, 0, n);
            },
            Phase::Gap => {
                lemma_gap_end_skips(line@, first_end, n);
            },
            Phase::Output => {
                lemma_token_end_skips(line@, second_start, n);
            },
            Phase::Commentary => {},
        }
    }
    match phase {
        Phase::Input => {
            if map_from.as_str().is_empty() {
                Ok(None)
            } else {
                Err(CharSubError::MissingMapToValue(line.to_owned()))
            }
        },
        Phase::Gap => Err(CharSubError::MissingMapToValue(line.to_owned())),
        Phase::Output => Ok(Some((map_from, map_to))),
        Phase::Commentary => Ok(Some((map_from, map_to))),
    }
}

} // verus!
