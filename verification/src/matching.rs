//! The mathematical model of streaming longest-match substitution.
//!
//! A rule set is a map from input sequences to replacement text. Everything
//! the engine does is defined here over that map alone, independent of how
//! the rules are indexed at run time.

use vstd::prelude::*;

verus! {

/// A rule set: each key is a rule's input sequence, its value the replacement.
pub type Rules = Map<Seq<char>, Seq<char>>;

/// `p` is a nonempty prefix of the input of at least one rule, so text that
/// reads `p` so far may still turn into a match.
pub open spec fn is_candidate(rules: Rules, p: Seq<char>) -> bool {
    p.len() > 0 && exists|k: Seq<char>| #[trigger] rules.dom().contains(k) && p.is_prefix_of(k)
}

/// Some rule's input is strictly longer than `p` and starts with `p`.
pub open spec fn can_grow(rules: Rules, p: Seq<char>) -> bool {
    exists|c: char| is_candidate(rules, #[trigger] p.push(c))
}

/// The length of the longest nonempty prefix of `s` that is the input of a
/// rule, or 0 when no prefix of `s` is.
pub open spec fn longest_match(rules: Rules, s: Seq<char>) -> nat
    decreases s.len(),
{
    if s.len() == 0 {
        0
    } else if rules.dom().contains(s) {
        s.len()
    } else {
        longest_match(rules, s.drop_last())
    }
}

/// What a candidate that can no longer be extended turns into: the
/// replacement of its longest matching prefix followed by the rest of the
/// candidate as literal text, or the candidate itself when no prefix matches.
pub open spec fn resolve(rules: Rules, s: Seq<char>) -> Seq<char> {
    let n = longest_match(rules, s) as int;
    if n == 0 {
        s
    } else {
        rules[s.take(n)] + s.skip(n)
    }
}

/// The state of a scan: the text emitted so far and the candidate that is
/// still undecided (empty when the scan is not inside a candidate).
#[verifier::ext_equal]
pub struct Scan {
    pub emitted: Seq<char>,
    pub candidate: Seq<char>,
}

/// The state before any character has been read.
pub open spec fn start() -> Scan {
    Scan { emitted: Seq::empty(), candidate: Seq::empty() }
}

/// Reads one character. A character that extends the candidate is held back.
/// Otherwise the candidate is resolved and emitted, and the character either
/// opens a new candidate or is copied to the output.
pub open spec fn step(rules: Rules, s: Scan, c: char) -> Scan {
    if is_candidate(rules, s.candidate.push(c)) {
        Scan { emitted: s.emitted, candidate: s.candidate.push(c) }
    } else {
        let flushed = s.emitted + resolve(rules, s.candidate);
        if is_candidate(rules, seq![c]) {
            Scan { emitted: flushed, candidate: seq![c] }
        } else {
            Scan { emitted: flushed.push(c), candidate: Seq::empty() }
        }
    }
}

/// Reads `text` from left to right, starting in state `s`.
pub open spec fn scan(rules: Rules, s: Scan, text: Seq<char>) -> Scan
    decreases text.len(),
{
    if text.len() == 0 {
        s
    } else {
        step(rules, scan(rules, s, text.drop_last()), text.last())
    }
}

/// The end of a chunk: a candidate that no rule can extend is replaced at
/// once; one that may still grow stays undecided.
pub open spec fn settle(rules: Rules, s: Scan) -> Scan {
    if s.candidate.len() > 0 && !can_grow(rules, s.candidate) {
        Scan { emitted: s.emitted + rules[s.candidate], candidate: Seq::empty() }
    } else {
        s
    }
}

/// One call of the engine: the candidate left over from the previous call is
/// read again in front of the new chunk. The result holds the text returned
/// and the candidate carried over to the next call.
pub open spec fn process_chunk(rules: Rules, pending: Seq<char>, chunk: Seq<char>) -> Scan {
    settle(rules, scan(rules, start(), pending + chunk))
}

/// A whole text with the rules applied: what one call returns for it,
/// followed by what the flush after it returns.
pub open spec fn substituted(rules: Rules, text: Seq<char>) -> Seq<char> {
    let end = process_chunk(rules, Seq::empty(), text);
    end.emitted + resolve(rules, end.candidate)
}

/// A leftover candidate is acceptable when it is absent or a real candidate.
pub open spec fn valid_pending(rules: Rules, pending: Seq<char>) -> bool {
    pending.len() == 0 || is_candidate(rules, pending)
}

/// No character of `text` begins the input of a rule.
pub open spec fn is_foreign(rules: Rules, text: Seq<char>) -> bool {
    forall|i: int| 0 <= i < text.len() ==> !is_candidate(rules, seq![#[trigger] text[i]])
}

/// A nonempty prefix of a candidate is a candidate.
pub proof fn lemma_candidate_prefix(rules: Rules, p: Seq<char>, n: int)
    requires
        is_candidate(rules, p),
        0 < n <= p.len(),
    ensures
        is_candidate(rules, p.take(n)),
{
    let k = choose|k: Seq<char>| #[trigger] rules.dom().contains(k) && p.is_prefix_of(k);
    assert(p.take(n).is_prefix_of(k));
}

/// A candidate that no rule extends is itself the input of a rule.
pub proof fn lemma_closed_candidate_is_rule(rules: Rules, p: Seq<char>)
    requires
        is_candidate(rules, p),
        !can_grow(rules, p),
    ensures
        rules.dom().contains(p),
{
    let k = choose|k: Seq<char>| #[trigger] rules.dom().contains(k) && p.is_prefix_of(k);
    if k.len() > p.len() {
        assert(p.push(k[p.len() as int]).is_prefix_of(k));
    } else {
        assert(k =~= p);
    }
}

/// Adding or overwriting a rule keeps every candidate a candidate.
pub proof fn lemma_candidate_survives_insert(
    rules: Rules,
    p: Seq<char>,
    input: Seq<char>,
    output: Seq<char>,
)
    requires
        is_candidate(rules, p),
    ensures
        is_candidate(rules.insert(input, output), p),
{
    let k = choose|k: Seq<char>| #[trigger] rules.dom().contains(k) && p.is_prefix_of(k);
    assert(rules.insert(input, output).dom().contains(k));
}

/// The longest match is what its name says: the length of a prefix that is
/// the input of a rule, where there is one, and no longer prefix is the input
/// of a rule.
pub proof fn longest_match_is_the_longest(rules: Rules, s: Seq<char>)
    ensures
        longest_match(rules, s) <= s.len(),
        longest_match(rules, s) > 0 ==> rules.dom().contains(
            s.take(longest_match(rules, s) as int),
        ),
        forall|n: int|
            longest_match(rules, s) < n <= s.len() ==> !rules.dom().contains(#[trigger] s.take(n)),
    decreases s.len(),
{
    if s.len() == 0 {
    } else if rules.dom().contains(s) {
        assert(s.take(s.len() as int) =~= s);
    } else {
        longest_match_is_the_longest(rules, s.drop_last());
        let m = longest_match(rules, s) as int;
        assert(s.drop_last().take(m) =~= s.take(m));
        assert forall|n: int| m < n <= s.len() implies !rules.dom().contains(
            #[trigger] s.take(n),
        ) by {
            if n == s.len() {
                assert(s.take(n) =~= s);
            } else {
                assert(s.drop_last().take(n) =~= s.take(n));
            }
        }
    }
}

/// A rule's input resolves to the rule's output.
pub proof fn lemma_resolve_of_rule(rules: Rules, input: Seq<char>)
    requires
        input.len() > 0,
        rules.dom().contains(input),
    ensures
        resolve(rules, input) == rules[input],
{
    assert(input.take(input.len() as int) =~= input);
    assert(input.skip(input.len() as int) =~= Seq::<char>::empty());
    assert(rules[input] + Seq::<char>::empty() =~= rules[input]);
}

/// Reading one more character is one more step.
pub proof fn lemma_scan_next(rules: Rules, s: Scan, text: Seq<char>, i: int)
    requires
        0 <= i < text.len(),
    ensures
        scan(rules, s, text.take(i + 1)) == step(rules, scan(rules, s, text.take(i)), text[i]),
{
    assert(text.take(i + 1).drop_last() =~= text.take(i));
}

/// Reading a single character is one step.
pub proof fn lemma_scan_one(rules: Rules, s: Scan, c: char)
    ensures
        scan(rules, s, seq![c]) == step(rules, s, c),
{
    assert(seq![c].drop_last() =~= Seq::<char>::empty());
    assert(scan(rules, s, seq![c].drop_last()) == s);
}

/// Reading two texts one after the other is reading their concatenation.
pub proof fn lemma_scan_concat(rules: Rules, s: Scan, a: Seq<char>, b: Seq<char>)
    ensures
        scan(rules, s, a + b) == scan(rules, scan(rules, s, a), b),
    decreases b.len(),
{
    if b.len() == 0 {
        assert(a + b =~= a);
    } else {
        lemma_scan_concat(rules, s, a, b.drop_last());
        assert((a + b).drop_last() =~= a + b.drop_last());
    }
}

/// A scan never holds anything but a candidate: each step leaves a candidate
/// or nothing.
pub proof fn lemma_scan_keeps_candidate(rules: Rules, s: Scan, text: Seq<char>)
    requires
        valid_pending(rules, s.candidate),
    ensures
        valid_pending(rules, scan(rules, s, text).candidate),
{
}

/// Reading a candidate from the start holds all of it back and emits
/// nothing.
pub proof fn lemma_scan_of_candidate(rules: Rules, p: Seq<char>)
    requires
        valid_pending(rules, p),
    ensures
        scan(rules, start(), p) == (Scan { emitted: Seq::empty(), candidate: p }),
    decreases p.len(),
{
    if p.len() > 0 {
        let shorter = p.drop_last();
        if shorter.len() > 0 {
            lemma_candidate_prefix(rules, p, shorter.len() as int);
        }
        lemma_scan_of_candidate(rules, shorter);
        assert(shorter.push(p.last()) =~= p);
    }
}

/// What a scan emits does not depend on what was emitted before it began.
pub proof fn lemma_scan_appends(rules: Rules, s: Scan, text: Seq<char>)
    ensures
        scan(rules, s, text).emitted == s.emitted + scan(
            rules,
            Scan { emitted: Seq::empty(), candidate: s.candidate },
            text,
        ).emitted,
        scan(rules, s, text).candidate == scan(
            rules,
            Scan { emitted: Seq::empty(), candidate: s.candidate },
            text,
        ).candidate,
    decreases text.len(),
{
    if text.len() == 0 {
        assert(s.emitted + Seq::<char>::empty() =~= s.emitted);
    } else {
        lemma_scan_appends(rules, s, text.drop_last());
    }
}

/// Where a candidate has stopped growing, it makes no difference to the text
/// that follows whether the candidate was replaced at once or is still held.
pub proof fn lemma_scan_after_settle(rules: Rules, s: Scan, text: Seq<char>)
    requires
        valid_pending(rules, s.candidate),
        text.len() > 0,
    ensures
        scan(rules, s, text) == scan(rules, settle(rules, s), text),
    decreases text.len(),
{
    if s.candidate.len() > 0 && !can_grow(rules, s.candidate) {
        if text.len() == 1 {
            // The next character ends the candidate, which is the input of a
            // rule: the step emits what settling emits.
            let settled = settle(rules, s);
            lemma_closed_candidate_is_rule(rules, s.candidate);
            lemma_resolve_of_rule(rules, s.candidate);
            assert(text =~= seq![text.last()]);
            lemma_scan_one(rules, s, text.last());
            lemma_scan_one(rules, settled, text.last());
        } else {
            lemma_scan_after_settle(rules, s, text.drop_last());
        }
    }
}

/// Foreign text that is read with nothing held back is emitted as it is.
proof fn lemma_scan_of_foreign_text(rules: Rules, emitted: Seq<char>, text: Seq<char>)
    requires
        is_foreign(rules, text),
    ensures
        scan(rules, Scan { emitted, candidate: Seq::empty() }, text) == (Scan {
            emitted: emitted + text,
            candidate: Seq::empty(),
        }),
    decreases text.len(),
{
    if text.len() == 0 {
        assert(emitted + text =~= emitted);
    } else {
        let shorter = text.drop_last();
        assert(is_foreign(rules, shorter)) by {
            assert forall|i: int| 0 <= i < shorter.len() implies !is_candidate(
                rules,
                seq![#[trigger] shorter[i]],
            ) by {
                assert(shorter[i] == text[i]);
            }
        }
        lemma_scan_of_foreign_text(rules, emitted, shorter);
        assert(!is_candidate(rules, seq![text[text.len() - 1]]));
        assert(Seq::<char>::empty().push(text.last()) =~= seq![text.last()]);
        assert((emitted + shorter + resolve(rules, Seq::empty())).push(text.last()) =~= emitted
            + text);
    }
}

/// Text in which no character begins the input of a rule passes through
/// unchanged, and nothing of it is held back.
pub proof fn foreign_text_is_unchanged(rules: Rules, text: Seq<char>)
    requires
        is_foreign(rules, text),
    ensures
        process_chunk(rules, Seq::empty(), text) == (Scan {
            emitted: text,
            candidate: Seq::empty(),
        }),
        substituted(rules, text) == text,
{
    lemma_scan_of_foreign_text(rules, Seq::empty(), text);
    assert(Seq::<char>::empty() + text =~= text);
    assert(text + resolve(rules, Seq::empty()) =~= text);
}

/// Without rules the engine is the identity: every text comes back as it
/// is, nothing is ever held back, and there is never anything to flush.
pub proof fn no_rules_is_identity(text: Seq<char>)
    ensures
        process_chunk(Rules::empty(), Seq::empty(), text) == (Scan {
            emitted: text,
            candidate: Seq::empty(),
        }),
        resolve(Rules::empty(), Seq::empty()) == Seq::<char>::empty(),
        forall|pending: Seq<char>| #[trigger]
            valid_pending(Rules::empty(), pending) ==> pending == Seq::<char>::empty(),
{
    foreign_text_is_unchanged(Rules::empty(), text);
    assert forall|pending: Seq<char>| #[trigger]
        valid_pending(Rules::empty(), pending) implies pending == Seq::<char>::empty() by {
        assert(pending =~= Seq::<char>::empty());
    }
}

/// With nothing held back a flush returns nothing. A flush leaves nothing
/// held back, so a second flush right after it is empty.
pub proof fn flush_of_nothing_is_empty(rules: Rules)
    ensures
        resolve(rules, Seq::empty()) == Seq::<char>::empty(),
{
}

/// It makes no difference where a text is cut into chunks: feeding `a` and
/// then `b` returns, put together, what feeding `a + b` at once returns,
/// and holds back the same candidate.
pub proof fn chunking_is_invisible(rules: Rules, pending: Seq<char>, a: Seq<char>, b: Seq<char>)
    ensures
        ({
            let first = process_chunk(rules, pending, a);
            let second = process_chunk(rules, first.candidate, b);
            let whole = process_chunk(rules, pending, a + b);
            &&& whole.emitted == first.emitted + second.emitted
            &&& whole.candidate == second.candidate
        }),
{
    let read_a = scan(rules, start(), pending + a);
    let first = settle(rules, read_a);
    // Reading `a + b` is reading `b` from where `a` ended.
    assert(pending + (a + b) =~= (pending + a) + b);
    lemma_scan_concat(rules, start(), pending + a, b);
    // The second call begins by reading back what the first held back.
    lemma_scan_keeps_candidate(rules, start(), pending + a);
    lemma_scan_of_candidate(rules, first.candidate);
    lemma_scan_concat(rules, start(), first.candidate, b);
    if b.len() == 0 {
        assert(first.candidate + b =~= first.candidate);
        assert(first.emitted + Seq::<char>::empty() =~= first.emitted);
    } else {
        lemma_scan_after_settle(rules, read_a, b);
        lemma_scan_appends(rules, first, b);
        let second = process_chunk(rules, first.candidate, b);
        let whole = process_chunk(rules, pending, a + b);
        assert(whole.emitted =~= first.emitted + second.emitted);
    }
}

/// What a text turns into does not depend on the chunks in which it
/// arrives: what the calls for `a` and for `b` return, followed by what the
/// flush after them returns, is `a + b` with the rules applied.
pub proof fn chunks_add_up_to_the_whole(rules: Rules, a: Seq<char>, b: Seq<char>)
    ensures
        ({
            let first = process_chunk(rules, Seq::empty(), a);
            let second = process_chunk(rules, first.candidate, b);
            substituted(rules, a + b) == first.emitted + second.emitted + resolve(
                rules,
                second.candidate,
            )
        }),
{
    chunking_is_invisible(rules, Seq::empty(), a, b);
}

/// The input of a rule that stands in foreign text, and that the text after
/// it does not continue into a longer candidate, is replaced by the rule's
/// output: that is what comes out, the final flush included.
pub proof fn rule_in_foreign_text_is_applied(
    rules: Rules,
    before: Seq<char>,
    input: Seq<char>,
    after: Seq<char>,
)
    requires
        is_foreign(rules, before),
        is_foreign(rules, after),
        input.len() > 0,
        rules.dom().contains(input),
        after.len() > 0 ==> !is_candidate(rules, input.push(after[0])),
    ensures
        substituted(rules, before + input + after) == before + rules[input] + after,
{
    let text = before + input + after;
    let held = Scan { emitted: before, candidate: input };
    assert(Seq::<char>::empty() + text =~= text);
    assert(is_candidate(rules, input)) by {
        assert(input.is_prefix_of(input));
    }
    lemma_resolve_of_rule(rules, input);
    // The text in front passes through, and the input is held back.
    lemma_scan_of_foreign_text(rules, Seq::empty(), before);
    assert(Seq::<char>::empty() + before =~= before);
    lemma_scan_concat(rules, start(), before, input);
    lemma_scan_appends(rules, Scan { emitted: before, candidate: Seq::empty() }, input);
    lemma_scan_of_candidate(rules, input);
    assert(scan(rules, start(), before + input) =~= held);
    lemma_scan_concat(rules, start(), before + input, after);
    if after.len() == 0 {
        // The input is replaced at the end of the chunk or by the flush.
        assert(text =~= before + input);
        assert(before + rules[input] + after =~= before + rules[input]);
        assert(before + rules[input] + resolve(rules, Seq::empty()) =~= before + rules[input]);
    } else {
        // The first character after the input ends the candidate, and the
        // rest passes through.
        let c = after[0];
        let rest = after.skip(1);
        let flushed = (before + rules[input]).push(c);
        assert(after =~= seq![c] + rest);
        lemma_scan_concat(rules, held, seq![c], rest);
        lemma_scan_one(rules, held, c);
        assert(step(rules, held, c) =~= (Scan { emitted: flushed, candidate: Seq::empty() }));
        assert(is_foreign(rules, rest)) by {
            assert forall|i: int| 0 <= i < rest.len() implies !is_candidate(
                rules,
                seq![#[trigger] rest[i]],
            ) by {
                assert(rest[i] == after[i + 1]);
            }
        }
        lemma_scan_of_foreign_text(rules, flushed, rest);
        assert(flushed + rest =~= before + rules[input] + after);
        assert(before + rules[input] + after + resolve(rules, Seq::empty()) =~= before
            + rules[input] + after);
    }
}

} // verus!
