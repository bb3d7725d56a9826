//! A reader for a small makefile dialect.
//!
//! A file is a sequence of rules. A rule is a list of targets separated by
//! single spaces, any number of spaces, a colon, any number of spaces, a list
//! of prerequisites separated by single spaces, then commands, each introduced
//! by a newline and a tab, and finally any number of newlines. A target, a
//! prerequisite or a command is a non-empty run of bytes that holds no space
//! (it may hold colons, tabs and newlines). So a colon that follows a single
//! space is one more target, and a prerequisite runs on over newlines up to
//! the next space, which leaves no place where a command could start. Reading
//! stops at the first place where no further rule can be read; the whole
//! input must have been used.
use vstd::prelude::*;

verus! {

/// The space byte, the only byte that ends a word.
pub const SPACE: u8 = 0x20;

/// The byte between the targets and the prerequisites of a rule.
pub const COLON: u8 = 0x3a;

/// The newline byte.
pub const NEWLINE: u8 = 0x0a;

/// The tab byte that, after a newline, introduces a command.
pub const TAB: u8 = 0x09;

/// What a rule holds, as sequences of bytes.
pub struct SpecRule {
    pub targets: Seq<Seq<u8>>,
    pub prerequisites: Seq<Seq<u8>>,
    pub commands: Seq<Seq<u8>>,
}

/// One rule of a makefile.
pub struct Rule {
    targets: Vec<Vec<u8>>,
    prerequisites: Vec<Vec<u8>>,
    commands: Vec<Vec<u8>>,
}

/// The place in the input where reading stopped without reaching its end.
#[derive(Debug, Clone, Copy, PartialEq, Eq, Structural)]
pub struct ParseError {
    /// Offset of the first byte that no rule could take.
    pub offset: usize,
}

/// The byte strings held in a vector of byte vectors.
pub open spec fn words_view(v: Seq<Vec<u8>>) -> Seq<Seq<u8>> {
    v.map_values(|w: Vec<u8>| w@)
}

impl View for Rule {
    type V = SpecRule;

    closed spec fn view(&self) -> SpecRule {
        SpecRule {
            targets: words_view(self.targets@),
            prerequisites: words_view(self.prerequisites@),
            commands: words_view(self.commands@),
        }
    }
}

/// The rules held in a vector of rules.
pub open spec fn rules_view(v: Seq<Rule>) -> Seq<SpecRule> {
    v.map_values(|r: Rule| r@)
}

/// The views keep order and length: the `k`-th byte string of a vector of
/// byte vectors is the `k`-th vector's bytes, and the `k`-th rule viewed is
/// the view of the `k`-th rule.
pub proof fn lemma_views_are_elementwise(words: Seq<Vec<u8>>, rules: Seq<Rule>)
    ensures
        words_view(words).len() == words.len(),
        forall|k: int| 0 <= k < words.len() ==> #[trigger] words_view(words)[k] == words[k]@,
        rules_view(rules).len() == rules.len(),
        forall|k: int| 0 <= k < rules.len() ==> #[trigger] rules_view(rules)[k] == rules[k]@,
{
}

// ---------------------------------------------------------------------------
// The grammar, over positions in the input.
// ---------------------------------------------------------------------------

/// End of the word starting at `i`: the first position at or after `i` that
/// holds a space, or the end of the input.
pub open spec fn word_end(s: Seq<u8>, i: int) -> int
    decreases s.len() - i,
{
    if 0 <= i < s.len() && s[i] != SPACE {
        word_end(s, i + 1)
    } else {
        i
    }
}

/// First position at or after `i` that does not hold byte `b`.
pub open spec fn skip_all(s: Seq<u8>, i: int, b: u8) -> int
    decreases s.len() - i,
{
    if 0 <= i < s.len() && s[i] == b {
        skip_all(s, i + 1, b)
    } else {
        i
    }
}

/// A word (a non-empty run of non-space bytes) starts at `i`.
pub open spec fn word_starts(s: Seq<u8>, i: int) -> bool {
    0 <= i < s.len() && s[i] != SPACE
}

pub proof fn lemma_word_end(s: Seq<u8>, i: int)
    requires
        0 <= i <= s.len(),
    ensures
        i <= word_end(s, i) <= s.len(),
        word_end(s, i) < s.len() ==> s[word_end(s, i)] == SPACE,
        forall|k: int| i <= k < word_end(s, i) ==> s[k] != SPACE,
    decreases s.len() - i,
{
    if 0 <= i < s.len() && s[i] != SPACE {
        lemma_word_end(s, i + 1);
    }
}

pub proof fn lemma_skip_all(s: Seq<u8>, i: int, b: u8)
    requires
        0 <= i <= s.len(),
    ensures
        i <= skip_all(s, i, b) <= s.len(),
        skip_all(s, i, b) < s.len() ==> s[skip_all(s, i, b)] != b,
        forall|k: int| i <= k < skip_all(s, i, b) ==> s[k] == b,
    decreases s.len() - i,
{
    if 0 <= i < s.len() && s[i] == b {
        lemma_skip_all(s, i + 1, b);
    }
}

/// The words that follow position `e`, each after one space, and where they end.
pub open spec fn list_tail(s: Seq<u8>, e: int) -> (Seq<Seq<u8>>, int)
    decreases s.len() - e,
{
    if 0 <= e && word_starts(s, e + 1) && s[e] == SPACE {
        let w = word_end(s, e + 1);
        proof {
            lemma_word_end(s, e + 1);
        }
        let rest = list_tail(s, w);
        (seq![s.subrange(e + 1, w)] + rest.0, rest.1)
    } else {
        (Seq::empty(), e)
    }
}

/// A list of words separated by single spaces, starting at `i` (possibly empty).
pub open spec fn list_from(s: Seq<u8>, i: int) -> (Seq<Seq<u8>>, int) {
    if word_starts(s, i) {
        let w = word_end(s, i);
        let rest = list_tail(s, w);
        (seq![s.subrange(i, w)] + rest.0, rest.1)
    } else {
        (Seq::empty(), i)
    }
}

/// A command starts at `i`: a newline, a tab, then a word.
pub open spec fn command_starts(s: Seq<u8>, i: int) -> bool {
    0 <= i && i + 2 < s.len() && s[i] == NEWLINE && s[i + 1] == TAB && s[i + 2] != SPACE
}

/// The commands that start at `i`, and where they end.
pub open spec fn commands_from(s: Seq<u8>, i: int) -> (Seq<Seq<u8>>, int)
    decreases s.len() - i,
{
    if command_starts(s, i) {
        let w = word_end(s, i + 2);
        proof {
            lemma_word_end(s, i + 2);
        }
        let rest = commands_from(s, w);
        (seq![s.subrange(i + 2, w)] + rest.0, rest.1)
    } else {
        (Seq::empty(), i)
    }
}

pub proof fn lemma_list_tail(s: Seq<u8>, e: int)
    requires
        0 <= e <= s.len(),
    ensures
        e <= list_tail(s, e).1 <= s.len(),
    decreases s.len() - e,
{
    if 0 <= e && word_starts(s, e + 1) && s[e] == SPACE {
        lemma_word_end(s, e + 1);
        lemma_list_tail(s, word_end(s, e + 1));
    }
}

pub proof fn lemma_list_from(s: Seq<u8>, i: int)
    requires
        0 <= i <= s.len(),
    ensures
        i <= list_from(s, i).1 <= s.len(),
{
    if word_starts(s, i) {
        lemma_word_end(s, i);
        lemma_list_tail(s, word_end(s, i));
    }
}

pub proof fn lemma_commands_from(s: Seq<u8>, i: int)
    requires
        0 <= i <= s.len(),
    ensures
        i <= commands_from(s, i).1 <= s.len(),
    decreases s.len() - i,
{
    if command_starts(s, i) {
        lemma_word_end(s, i + 2);
        lemma_commands_from(s, word_end(s, i + 2));
    }
}

/// The rule that starts at `i`, and where it ends; `None` where no rule starts there.
pub open spec fn rule_at(s: Seq<u8>, i: int) -> Option<(SpecRule, int)> {
    let (targets, a) = list_from(s, i);
    let b = skip_all(s, a, SPACE);
    if 0 <= b < s.len() && s[b] == COLON {
        let c = skip_all(s, b + 1, SPACE);
        let (prerequisites, d) = list_from(s, c);
        let (commands, e) = commands_from(s, d);
        let f = skip_all(s, e, NEWLINE);
        Some((SpecRule { targets, prerequisites, commands }, f))
    } else {
        None
    }
}

/// A rule always takes at least its colon.
pub proof fn lemma_rule_at(s: Seq<u8>, i: int)
    requires
        0 <= i <= s.len(),
    ensures
        rule_at(s, i) matches Some((_, f)) ==> i < f <= s.len(),
{
    lemma_list_from(s, i);
    let a = list_from(s, i).1;
    lemma_skip_all(s, a, SPACE);
    let b = skip_all(s, a, SPACE);
    if 0 <= b < s.len() && s[b] == COLON {
        lemma_skip_all(s, b + 1, SPACE);
        let c = skip_all(s, b + 1, SPACE);
        lemma_list_from(s, c);
        let d = list_from(s, c).1;
        lemma_commands_from(s, d);
        let e = commands_from(s, d).1;
        lemma_skip_all(s, e, NEWLINE);
    }
}

/// The rules read one after another from `i`, and where reading stopped.
pub open spec fn rules_from(s: Seq<u8>, i: int) -> (Seq<SpecRule>, int)
    decreases s.len() - i,
{
    if 0 <= i <= s.len() {
        match rule_at(s, i) {
            Some((r, f)) => {
                proof {
                    lemma_rule_at(s, i);
                }
                let rest = rules_from(s, f);
                (seq![r] + rest.0, rest.1)
            },
            None => (Seq::empty(), i),
        }
    } else {
        (Seq::empty(), i)
    }
}

/// What reading a whole makefile gives: its rules, or the offset where
/// reading stopped before the end of the input.
pub open spec fn spec_parse(s: Seq<u8>) -> Result<Seq<SpecRule>, int> {
    let (rules, end) = rules_from(s, 0);
    if end == s.len() {
        Ok(rules)
    } else {
        Err(end)
    }
}

// ---------------------------------------------------------------------------
// What a reading gives.
// ---------------------------------------------------------------------------

/// A non-empty run of bytes that holds no space.
pub open spec fn is_word(w: Seq<u8>) -> bool {
    w.len() > 0 && forall|k: int| 0 <= k < w.len() ==> w[k] != SPACE
}

/// Every entry of the list is a word.
pub open spec fn all_words(ws: Seq<Seq<u8>>) -> bool {
    forall|k: int| 0 <= k < ws.len() ==> is_word(#[trigger] ws[k])
}

/// Every target, prerequisite and command of every rule is a word.
pub open spec fn rules_hold_words(rules: Seq<SpecRule>) -> bool {
    forall|r: int|
        0 <= r < rules.len() ==> {
            &&& all_words(#[trigger] rules[r].targets)
            &&& all_words(rules[r].prerequisites)
            &&& all_words(rules[r].commands)
        }
}

proof fn lemma_word_is_word(s: Seq<u8>, i: int)
    requires
        word_starts(s, i),
    ensures
        is_word(s.subrange(i, word_end(s, i))),
{
    lemma_word_end(s, i);
    if word_end(s, i) == i {
        assert(word_end(s, i) == word_end(s, i + 1));
        lemma_word_end(s, i + 1);
    }
}

proof fn lemma_prepend_words(w: Seq<u8>, ws: Seq<Seq<u8>>)
    requires
        is_word(w),
        all_words(ws),
    ensures
        all_words(seq![w] + ws),
{
    assert forall|k: int| 0 <= k < (seq![w] + ws).len() implies is_word(
        #[trigger] (seq![w] + ws)[k],
    ) by {
        if k > 0 {
            assert((seq![w] + ws)[k] == ws[k - 1]);
        }
    }
}

proof fn lemma_list_tail_words(s: Seq<u8>, e: int)
    requires
        0 <= e <= s.len(),
    ensures
        all_words(list_tail(s, e).0),
    decreases s.len() - e,
{
    if 0 <= e && word_starts(s, e + 1) && s[e] == SPACE {
        lemma_word_end(s, e + 1);
        lemma_word_is_word(s, e + 1);
        lemma_list_tail_words(s, word_end(s, e + 1));
        lemma_prepend_words(s.subrange(e + 1, word_end(s, e + 1)), list_tail(s, word_end(s, e + 1)).0);
    }
}

proof fn lemma_list_from_words(s: Seq<u8>, i: int)
    requires
        0 <= i <= s.len(),
    ensures
        all_words(list_from(s, i).0),
{
    if word_starts(s, i) {
        lemma_word_end(s, i);
        lemma_word_is_word(s, i);
        lemma_list_tail_words(s, word_end(s, i));
        lemma_prepend_words(s.subrange(i, word_end(s, i)), list_tail(s, word_end(s, i)).0);
    }
}

proof fn lemma_commands_words(s: Seq<u8>, i: int)
    requires
        0 <= i <= s.len(),
    ensures
        all_words(commands_from(s, i).0),
    decreases s.len() - i,
{
    if command_starts(s, i) {
        lemma_word_end(s, i + 2);
        lemma_word_is_word(s, i + 2);
        lemma_commands_words(s, word_end(s, i + 2));
        lemma_prepend_words(s.subrange(i + 2, word_end(s, i + 2)), commands_from(s, word_end(s, i + 2)).0);
    }
}

proof fn lemma_rules_from_words(s: Seq<u8>, i: int)
    requires
        0 <= i <= s.len(),
    ensures
        rules_hold_words(rules_from(s, i).0),
        i <= rules_from(s, i).1 <= s.len(),
        rules_from(s, i).1 < s.len() ==> rule_at(s, rules_from(s, i).1) is None,
    decreases s.len() - i,
{
    lemma_rule_at(s, i);
    if let Some((r, f)) = rule_at(s, i) {
        lemma_rules_from_words(s, f);
        lemma_list_from_words(s, i);
        lemma_list_from(s, i);
        let a = list_from(s, i).1;
        lemma_skip_all(s, a, SPACE);
        let b = skip_all(s, a, SPACE);
        lemma_skip_all(s, b + 1, SPACE);
        let c = skip_all(s, b + 1, SPACE);
        lemma_list_from_words(s, c);
        lemma_list_from(s, c);
        lemma_commands_words(s, list_from(s, c).1);
        let rest = rules_from(s, f).0;
        assert forall|k: int| 0 <= k < (seq![r] + rest).len() implies {
            &&& all_words(#[trigger] (seq![r] + rest)[k].targets)
            &&& all_words((seq![r] + rest)[k].prerequisites)
            &&& all_words((seq![r] + rest)[k].commands)
        } by {
            if k > 0 {
                assert((seq![r] + rest)[k] == rest[k - 1]);
            }
        }
    }
}

/// What a reading of a whole makefile gives: on success, rules whose targets,
/// prerequisites and commands are all non-empty and hold no space; on
/// failure, an offset inside the input at which no rule starts.
pub proof fn lemma_parse_outcome(s: Seq<u8>)
    ensures
        spec_parse(s) matches Ok(rules) ==> rules_hold_words(rules),
        spec_parse(s) matches Err(offset) ==> 0 <= offset < s.len() && rule_at(s, offset) is None,
{
    lemma_rules_from_words(s, 0);
}

/// A position where a word list can end: the end of the input or a space.
pub open spec fn at_break(s: Seq<u8>, i: int) -> bool {
    i == s.len() || (0 <= i < s.len() && s[i] == SPACE)
}

proof fn lemma_list_tail_ends_at_break(s: Seq<u8>, e: int)
    requires
        0 <= e <= s.len(),
        at_break(s, e),
    ensures
        at_break(s, list_tail(s, e).1),
    decreases s.len() - e,
{
    if 0 <= e && word_starts(s, e + 1) && s[e] == SPACE {
        lemma_word_end(s, e + 1);
        lemma_list_tail_ends_at_break(s, word_end(s, e + 1));
    }
}

/// No rule ever holds a command: the list of prerequisites runs up to the end
/// of the input or to a space (a word takes newlines and tabs too), and a
/// command must start with a newline.
pub proof fn lemma_rules_hold_no_commands(s: Seq<u8>, i: int)
    requires
        0 <= i <= s.len(),
    ensures
        rule_at(s, i) matches Some((r, f)) ==> r.commands.len() == 0 && at_break(s, f),
{
    lemma_list_from(s, i);
    let a = list_from(s, i).1;
    lemma_skip_all(s, a, SPACE);
    let b = skip_all(s, a, SPACE);
    if 0 <= b < s.len() && s[b] == COLON {
        lemma_skip_all(s, b + 1, SPACE);
        let c = skip_all(s, b + 1, SPACE);
        if word_starts(s, c) {
            lemma_word_end(s, c);
            lemma_list_tail_ends_at_break(s, word_end(s, c));
        }
        let d = list_from(s, c).1;
        assert(at_break(s, d));
        assert(!command_starts(s, d));
        assert(skip_all(s, d, NEWLINE) == d);
    }
}

// ---------------------------------------------------------------------------
// Writing a rule out, and reading it back.
// ---------------------------------------------------------------------------

/// The words, each after one space.
pub open spec fn spaced(ws: Seq<Seq<u8>>) -> Seq<u8>
    decreases ws.len(),
{
    if ws.len() == 0 {
        Seq::empty()
    } else {
        seq![SPACE] + ws[0] + spaced(ws.drop_first())
    }
}

/// The words joined by single spaces.
pub open spec fn join_words(ws: Seq<Seq<u8>>) -> Seq<u8> {
    if ws.len() == 0 {
        Seq::empty()
    } else {
        ws[0] + spaced(ws.drop_first())
    }
}

/// `n` spaces.
pub open spec fn spaces(n: nat) -> Seq<u8> {
    Seq::new(n, |k: int| SPACE)
}

/// The text of a rule without commands: the targets joined by single spaces,
/// `before` spaces, a colon, `after` spaces and the prerequisites joined by
/// single spaces.
pub open spec fn render_rule(
    targets: Seq<Seq<u8>>,
    prerequisites: Seq<Seq<u8>>,
    before: nat,
    after: nat,
) -> Seq<u8> {
    join_words(targets) + spaces(before) + seq![COLON] + spaces(after) + join_words(prerequisites)
}

proof fn lemma_list_tail_spans(s: Seq<u8>, e: int)
    requires
        0 <= e <= s.len(),
    ensures
        e <= list_tail(s, e).1 <= s.len(),
        spaced(list_tail(s, e).0) == s.subrange(e, list_tail(s, e).1),
    decreases s.len() - e,
{
    lemma_list_tail(s, e);
    if 0 <= e && word_starts(s, e + 1) && s[e] == SPACE {
        let w = word_end(s, e + 1);
        lemma_word_end(s, e + 1);
        lemma_list_tail_spans(s, w);
        let ws = list_tail(s, e).0;
        let x = list_tail(s, e).1;
        assert(ws.drop_first() =~= list_tail(s, w).0);
        assert(ws[0] == s.subrange(e + 1, w));
        assert(spaced(ws) =~= s.subrange(e, x));
    } else {
        assert(s.subrange(e, e) =~= Seq::<u8>::empty());
    }
}

/// No byte is lost: the words of a list read from `i`, joined by single
/// spaces, are exactly the input from `i` to where the list ends.
pub proof fn lemma_list_keeps_every_byte(s: Seq<u8>, i: int)
    requires
        0 <= i <= s.len(),
    ensures
        i <= list_from(s, i).1 <= s.len(),
        join_words(list_from(s, i).0) == s.subrange(i, list_from(s, i).1),
{
    lemma_list_from(s, i);
    if word_starts(s, i) {
        let w = word_end(s, i);
        lemma_word_end(s, i);
        lemma_list_tail_spans(s, w);
        let ws = list_from(s, i).0;
        assert(ws.drop_first() =~= list_tail(s, w).0);
        assert(join_words(ws) =~= s.subrange(i, list_from(s, i).1));
    } else {
        assert(s.subrange(i, i) =~= Seq::<u8>::empty());
    }
}

proof fn lemma_word_end_at(s: Seq<u8>, i: int, w: Seq<u8>)
    requires
        0 <= i,
        i + w.len() <= s.len(),
        s.subrange(i, i + w.len()) == w,
        forall|k: int| 0 <= k < w.len() ==> w[k] != SPACE,
        at_break(s, i + w.len()),
    ensures
        word_end(s, i) == i + w.len(),
    decreases w.len(),
{
    if w.len() > 0 {
        assert(s[i] == s.subrange(i, i + w.len())[0]);
        assert(s.subrange(i + 1, i + w.len()) =~= w.drop_first());
        lemma_word_end_at(s, i + 1, w.drop_first());
    }
}

proof fn lemma_skip_spaces_at(s: Seq<u8>, i: int, n: int)
    requires
        0 <= i,
        0 <= n,
        i + n <= s.len(),
        forall|k: int| i <= k < i + n ==> s[k] == SPACE,
        i + n == s.len() || s[i + n] != SPACE,
    ensures
        skip_all(s, i, SPACE) == i + n,
    decreases n,
{
    if n > 0 {
        lemma_skip_spaces_at(s, i + 1, n - 1);
    }
}

proof fn lemma_list_tail_at(s: Seq<u8>, e: int, ws: Seq<Seq<u8>>)
    requires
        0 <= e,
        e + spaced(ws).len() <= s.len(),
        s.subrange(e, e + spaced(ws).len()) == spaced(ws),
        all_words(ws),
        at_break(s, e + spaced(ws).len()),
        !(e + spaced(ws).len() < s.len() && word_starts(s, e + spaced(ws).len() + 1)),
    ensures
        list_tail(s, e) == (ws, e + spaced(ws).len()),
    decreases ws.len(),
{
    let x = e + spaced(ws).len();
    if ws.len() == 0 {
        assert(ws =~= Seq::<Seq<u8>>::empty());
    } else {
        let w0 = ws[0];
        let rest = ws.drop_first();
        let sp = spaced(ws);
        assert(sp == seq![SPACE] + w0 + spaced(rest));
        assert(is_word(w0));
        let y = e + 1 + w0.len();
        assert(s[e] == sp[0]);
        assert(s.subrange(e + 1, y) =~= w0) by {
            assert forall|k: int| 0 <= k < w0.len() implies s.subrange(e + 1, y)[k] == w0[k] by {
                assert(s[e + 1 + k] == sp[1 + k]);
            }
        }
        assert(s[e + 1] == w0[0]);
        assert(s.subrange(y, x) =~= spaced(rest)) by {
            assert forall|k: int| 0 <= k < spaced(rest).len() implies s.subrange(y, x)[k]
                == spaced(rest)[k] by {
                assert(s[y + k] == sp[1 + w0.len() + k]);
            }
        }
        assert(all_words(rest)) by {
            assert forall|k: int| 0 <= k < rest.len() implies is_word(#[trigger] rest[k]) by {
                assert(rest[k] == ws[k + 1]);
            }
        }
        if rest.len() > 0 {
            assert(spaced(rest)[0] == SPACE);
            assert(s[y] == s.subrange(y, x)[0]);
        }
        lemma_word_end_at(s, e + 1, w0);
        lemma_list_tail_at(s, y, rest);
        assert(seq![w0] + rest =~= ws);
    }
}

proof fn lemma_list_from_at(s: Seq<u8>, i: int, ws: Seq<Seq<u8>>)
    requires
        0 <= i,
        i + join_words(ws).len() <= s.len(),
        s.subrange(i, i + join_words(ws).len()) == join_words(ws),
        all_words(ws),
        at_break(s, i + join_words(ws).len()),
        !(i + join_words(ws).len() < s.len() && word_starts(s, i + join_words(ws).len() + 1)),
    ensures
        list_from(s, i) == (ws, i + join_words(ws).len()),
{
    let x = i + join_words(ws).len();
    if ws.len() == 0 {
        assert(ws =~= Seq::<Seq<u8>>::empty());
    } else {
        let w0 = ws[0];
        let rest = ws.drop_first();
        let j = join_words(ws);
        assert(j == w0 + spaced(rest));
        assert(is_word(w0));
        let y = i + w0.len();
        assert(s.subrange(i, y) =~= w0) by {
            assert forall|k: int| 0 <= k < w0.len() implies s.subrange(i, y)[k] == w0[k] by {
                assert(s[i + k] == j[k]);
            }
        }
        assert(s[i] == w0[0]);
        assert(s.subrange(y, x) =~= spaced(rest)) by {
            assert forall|k: int| 0 <= k < spaced(rest).len() implies s.subrange(y, x)[k]
                == spaced(rest)[k] by {
                assert(s[y + k] == j[w0.len() + k]);
            }
        }
        assert(all_words(rest)) by {
            assert forall|k: int| 0 <= k < rest.len() implies is_word(#[trigger] rest[k]) by {
                assert(rest[k] == ws[k + 1]);
            }
        }
        if rest.len() > 0 {
            assert(spaced(rest)[0] == SPACE);
            assert(s[y] == s.subrange(y, x)[0]);
        }
        lemma_word_end_at(s, i, w0);
        lemma_list_tail_at(s, y, rest);
        assert(seq![w0] + rest =~= ws);
    }
}

proof fn lemma_rendered_rule_at(
    s: Seq<u8>,
    targets: Seq<Seq<u8>>,
    prerequisites: Seq<Seq<u8>>,
    before: nat,
    after: nat,
)
    requires
        all_words(targets),
        all_words(prerequisites),
        before >= 2,
        render_rule(targets, prerequisites, before, after).len() <= s.len(),
        s.subrange(0, render_rule(targets, prerequisites, before, after).len() as int)
            == render_rule(targets, prerequisites, before, after),
        at_break(s, render_rule(targets, prerequisites, before, after).len() as int),
        !(render_rule(targets, prerequisites, before, after).len() < s.len() && word_starts(
            s,
            render_rule(targets, prerequisites, before, after).len() as int + 1,
        )),
        prerequisites.len() > 0 || render_rule(targets, prerequisites, before, after).len()
            == s.len(),
    ensures
        rule_at(s, 0) == Some(
            (
                SpecRule { targets, prerequisites, commands: Seq::empty() },
                render_rule(targets, prerequisites, before, after).len() as int,
            ),
        ),
{
    let text = render_rule(targets, prerequisites, before, after);
    let jt = join_words(targets);
    let jp = join_words(prerequisites);
    let t = jt.len() as int;
    let b = t + before;
    let c = b + 1 + after;
    let l = text.len() as int;
    assert(l == c + jp.len());
    assert forall|k: int| 0 <= k < l implies s[k] == text[k] by {
        assert(s[k] == s.subrange(0, l)[k]);
    }
    assert(s.subrange(0, t) =~= jt);
    assert(s[t] == text[t]);
    assert(s[t + 1] == text[t + 1]);
    assert forall|k: int| t <= k < b implies s[k] == SPACE by {
        assert(s[k] == spaces(before)[k - t]);
    }
    assert(s[b] == COLON);
    assert forall|k: int| b + 1 <= k < c implies s[k] == SPACE by {
        assert(s[k] == spaces(after)[k - b - 1]);
    }
    assert(s.subrange(c, l) =~= jp);
    if prerequisites.len() > 0 {
        assert(is_word(prerequisites[0]));
        assert(jp[0] == prerequisites[0][0]);
        assert(s[c] == jp[0]);
    }
    lemma_list_from_at(s, 0, targets);
    lemma_skip_spaces_at(s, t, before as int);
    lemma_skip_spaces_at(s, b + 1, after as int);
    lemma_list_from_at(s, c, prerequisites);
    assert(commands_from(s, l) == (Seq::<Seq<u8>>::empty(), l));
    assert(skip_all(s, l, NEWLINE) == l);
}

/// Reading back a rule written out: any targets and prerequisites that are
/// non-empty runs of bytes without spaces, written as `render_rule` does with
/// at least two spaces before the colon, read back as exactly one rule with
/// those targets and prerequisites and no command.
pub proof fn lemma_parse_rendered_rule(
    targets: Seq<Seq<u8>>,
    prerequisites: Seq<Seq<u8>>,
    before: nat,
    after: nat,
)
    requires
        all_words(targets),
        all_words(prerequisites),
        before >= 2,
    ensures
        spec_parse(render_rule(targets, prerequisites, before, after)) == Ok::<Seq<SpecRule>, int>(
            seq![SpecRule { targets, prerequisites, commands: Seq::empty() }],
        ),
{
    let s = render_rule(targets, prerequisites, before, after);
    let l = s.len() as int;
    assert(s.subrange(0, l) =~= s);
    lemma_rendered_rule_at(s, targets, prerequisites, before, after);
    let r = SpecRule { targets, prerequisites, commands: Seq::empty() };
    assert(rule_at(s, l) is None);
    assert(rules_from(s, l) == (Seq::<SpecRule>::empty(), l));
    assert(rules_from(s, 0).0 =~= seq![r]);
}

proof fn lemma_word_end_shift(pre: Seq<u8>, rest: Seq<u8>, i: int)
    requires
        0 <= i <= rest.len(),
    ensures
        word_end(pre + rest, pre.len() + i) == pre.len() + word_end(rest, i),
    decreases rest.len() - i,
{
    let s = pre + rest;
    if i < rest.len() {
        assert(s[pre.len() + i] == rest[i]);
        if rest[i] != SPACE {
            lemma_word_end_shift(pre, rest, i + 1);
        }
    }
}

proof fn lemma_skip_all_shift(pre: Seq<u8>, rest: Seq<u8>, i: int, b: u8)
    requires
        0 <= i <= rest.len(),
    ensures
        skip_all(pre + rest, pre.len() + i, b) == pre.len() + skip_all(rest, i, b),
    decreases rest.len() - i,
{
    let s = pre + rest;
    if i < rest.len() {
        assert(s[pre.len() + i] == rest[i]);
        if rest[i] == b {
            lemma_skip_all_shift(pre, rest, i + 1, b);
        }
    }
}

proof fn lemma_list_tail_shift(pre: Seq<u8>, rest: Seq<u8>, e: int)
    requires
        0 <= e <= rest.len(),
    ensures
        list_tail(pre + rest, pre.len() + e) == (list_tail(rest, e).0, pre.len() + list_tail(
            rest,
            e,
        ).1),
    decreases rest.len() - e,
{
    let s = pre + rest;
    let k = pre.len() as int;
    if e + 1 < rest.len() {
        assert(s[k + e] == rest[e]);
        assert(s[k + e + 1] == rest[e + 1]);
    }
    if word_starts(rest, e + 1) && rest[e] == SPACE {
        lemma_word_end_shift(pre, rest, e + 1);
        lemma_word_end(rest, e + 1);
        let w = word_end(rest, e + 1);
        lemma_list_tail_shift(pre, rest, w);
        assert(s.subrange(k + e + 1, k + w) =~= rest.subrange(e + 1, w));
    }
}

proof fn lemma_list_from_shift(pre: Seq<u8>, rest: Seq<u8>, i: int)
    requires
        0 <= i <= rest.len(),
    ensures
        list_from(pre + rest, pre.len() + i) == (list_from(rest, i).0, pre.len() + list_from(
            rest,
            i,
        ).1),
{
    let s = pre + rest;
    let k = pre.len() as int;
    if i < rest.len() {
        assert(s[k + i] == rest[i]);
    }
    if word_starts(rest, i) {
        lemma_word_end_shift(pre, rest, i);
        lemma_word_end(rest, i);
        let w = word_end(rest, i);
        lemma_list_tail_shift(pre, rest, w);
        assert(s.subrange(k + i, k + w) =~= rest.subrange(i, w));
    }
}

proof fn lemma_commands_from_shift(pre: Seq<u8>, rest: Seq<u8>, i: int)
    requires
        0 <= i <= rest.len(),
    ensures
        commands_from(pre + rest, pre.len() + i) == (commands_from(rest, i).0, pre.len()
            + commands_from(rest, i).1),
    decreases rest.len() - i,
{
    let s = pre + rest;
    let k = pre.len() as int;
    if i + 2 < rest.len() {
        assert(s[k + i] == rest[i]);
        assert(s[k + i + 1] == rest[i + 1]);
        assert(s[k + i + 2] == rest[i + 2]);
    }
    if command_starts(rest, i) {
        lemma_word_end_shift(pre, rest, i + 2);
        lemma_word_end(rest, i + 2);
        let w = word_end(rest, i + 2);
        lemma_commands_from_shift(pre, rest, w);
        assert(s.subrange(k + i + 2, k + w) =~= rest.subrange(i + 2, w));
    }
}

proof fn lemma_rule_at_shift(pre: Seq<u8>, rest: Seq<u8>, i: int)
    requires
        0 <= i <= rest.len(),
    ensures
        rule_at(pre + rest, pre.len() + i) == match rule_at(rest, i) {
            Some((r, f)) => Some((r, pre.len() + f)),
            None => None,
        },
{
    let s = pre + rest;
    let k = pre.len() as int;
    lemma_list_from_shift(pre, rest, i);
    lemma_list_from(rest, i);
    let a = list_from(rest, i).1;
    lemma_skip_all_shift(pre, rest, a, SPACE);
    lemma_skip_all(rest, a, SPACE);
    let b = skip_all(rest, a, SPACE);
    if b < rest.len() {
        assert(s[k + b] == rest[b]);
    }
    if 0 <= b < rest.len() && rest[b] == COLON {
        lemma_skip_all_shift(pre, rest, b + 1, SPACE);
        lemma_skip_all(rest, b + 1, SPACE);
        let c = skip_all(rest, b + 1, SPACE);
        lemma_list_from_shift(pre, rest, c);
        lemma_list_from(rest, c);
        let d = list_from(rest, c).1;
        lemma_commands_from_shift(pre, rest, d);
        lemma_commands_from(rest, d);
        let e = commands_from(rest, d).1;
        lemma_skip_all_shift(pre, rest, e, NEWLINE);
    }
}

proof fn lemma_rules_from_shift(pre: Seq<u8>, rest: Seq<u8>, i: int)
    requires
        0 <= i <= rest.len(),
    ensures
        rules_from(pre + rest, pre.len() + i) == (rules_from(rest, i).0, pre.len() + rules_from(
            rest,
            i,
        ).1),
    decreases rest.len() - i,
{
    lemma_rule_at_shift(pre, rest, i);
    lemma_rule_at(rest, i);
    if let Some((r, f)) = rule_at(rest, i) {
        lemma_rules_from_shift(pre, rest, f);
    }
}

/// Reading is rule by rule: a rule written out (with at least one
/// prerequisite) and followed by a text that starts with two spaces, or by
/// nothing, reads as that rule followed by what the text reads as; an error in
/// the text is reported at its offset in the whole input.
pub proof fn lemma_parse_rule_then_rest(
    targets: Seq<Seq<u8>>,
    prerequisites: Seq<Seq<u8>>,
    before: nat,
    after: nat,
    rest: Seq<u8>,
)
    requires
        all_words(targets),
        all_words(prerequisites),
        prerequisites.len() > 0,
        before >= 2,
        rest.len() == 0 || (rest.len() >= 2 && rest[0] == SPACE && rest[1] == SPACE),
    ensures
        spec_parse(render_rule(targets, prerequisites, before, after) + rest) == match spec_parse(
            rest,
        ) {
            Ok(rules) => Ok(seq![SpecRule { targets, prerequisites, commands: Seq::empty() }] + rules),
            Err(offset) => Err(render_rule(targets, prerequisites, before, after).len() + offset),
        },
{
    let text = render_rule(targets, prerequisites, before, after);
    let s = text + rest;
    let l = text.len() as int;
    assert(s.subrange(0, l) =~= text);
    if rest.len() > 0 {
        assert(s[l] == rest[0]);
        assert(s[l + 1] == rest[1]);
    }
    lemma_rendered_rule_at(s, targets, prerequisites, before, after);
    lemma_rules_from_shift(text, rest, 0);
    lemma_rules_from_words(rest, 0);
}

/// The text of every rule read is a rule written out: the bytes from where a
/// rule starts to where it ends are its targets joined by single spaces, some
/// spaces, a colon, some spaces and its prerequisites joined by single spaces.
pub proof fn lemma_rule_text(s: Seq<u8>, i: int)
    requires
        0 <= i <= s.len(),
    ensures
        rule_at(s, i) matches Some((r, f)) ==> exists|before: nat, after: nat|
            s.subrange(i, f) == #[trigger] render_rule(
                r.targets,
                r.prerequisites,
                before,
                after,
            ),
{
    lemma_list_keeps_every_byte(s, i);
    let a = list_from(s, i).1;
    lemma_skip_all(s, a, SPACE);
    let b = skip_all(s, a, SPACE);
    if 0 <= b < s.len() && s[b] == COLON {
        lemma_skip_all(s, b + 1, SPACE);
        let c = skip_all(s, b + 1, SPACE);
        lemma_list_keeps_every_byte(s, c);
        let d = list_from(s, c).1;
        if word_starts(s, c) {
            lemma_word_end(s, c);
            lemma_list_tail_ends_at_break(s, word_end(s, c));
        }
        assert(at_break(s, d));
        assert(!command_starts(s, d));
        assert(skip_all(s, d, NEWLINE) == d);
        let r = rule_at(s, i).unwrap().0;
        let f = rule_at(s, i).unwrap().1;
        assert(f == d);
        let before = (b - a) as nat;
        let after = (c - b - 1) as nat;
        assert(s.subrange(a, b) =~= spaces(before));
        assert(s.subrange(b + 1, c) =~= spaces(after));
        assert(s.subrange(i, f) =~= render_rule(r.targets, r.prerequisites, before, after)) by {
            assert(s.subrange(i, f) =~= s.subrange(i, a) + s.subrange(a, b) + seq![COLON]
                + s.subrange(b + 1, c) + s.subrange(c, d));
        }
    }
}

/// Reading stops at the start of the input or at a space.
pub proof fn lemma_parse_stops_at_space(s: Seq<u8>)
    ensures
        spec_parse(s) matches Err(offset) ==> offset == 0 || s[offset] == SPACE,
{
    lemma_rules_from_break(s, 0);
}

proof fn lemma_rules_from_break(s: Seq<u8>, i: int)
    requires
        0 <= i <= s.len(),
    ensures
        rules_from(s, i).1 == i || at_break(s, rules_from(s, i).1),
    decreases s.len() - i,
{
    lemma_rule_at(s, i);
    if let Some((r, f)) = rule_at(s, i) {
        lemma_rules_hold_no_commands(s, i);
        lemma_rules_from_break(s, f);
    }
}

// ---------------------------------------------------------------------------
// Reading.
// ---------------------------------------------------------------------------

impl Rule {
    /// The targets of the rule, in the order written.
    pub fn targets(&self) -> (t: &Vec<Vec<u8>>)
        ensures
            words_view(t@) == self@.targets,
    {
        &self.targets
    }

    /// The prerequisites of the rule, in the order written.
    pub fn prerequisites(&self) -> (p: &Vec<Vec<u8>>)
        ensures
            words_view(p@) == self@.prerequisites,
    {
        &self.prerequisites
    }

    /// The commands of the rule, in the order written.
    pub fn commands(&self) -> (c: &Vec<Vec<u8>>)
        ensures
            words_view(c@) == self@.commands,
    {
        &self.commands
    }
}

/// A copy of the bytes `s[i..j]`.
fn copy_range(s: &[u8], i: usize, j: usize) -> (w: Vec<u8>)
    requires
        i <= j <= s@.len(),
    ensures
        w@ == s@.subrange(i as int, j as int),
{
    vstd::slice::slice_to_vec(vstd::slice::slice_subrange(s, i, j))
}

/// The end of the word that starts at `i`.
fn find_word_end(s: &[u8], i: usize) -> (e: usize)
    requires
        i <= s@.len(),
    ensures
        e == word_end(s@, i as int),
{
    let mut j = i;
    while j < s.len() && s[j] != SPACE
        invariant
            i <= j <= s@.len(),
            word_end(s@, j as int) == word_end(s@, i as int),
        decreases s@.len() - j,
    {
        j = j + 1;
    }
    j
}

/// The first position at or after `i` that does not hold `b`.
fn skip_bytes(s: &[u8], i: usize, b: u8) -> (e: usize)
    requires
        i <= s@.len(),
    ensures
        e == skip_all(s@, i as int, b),
{
    let mut j = i;
    while j < s.len() && s[j] == b
        invariant
            i <= j <= s@.len(),
            skip_all(s@, j as int, b) == skip_all(s@, i as int, b),
        decreases s@.len() - j,
    {
        j = j + 1;
    }
    j
}

/// Reads a list of words separated by single spaces, starting at `i`.
fn read_list(s: &[u8], i: usize) -> (res: (Vec<Vec<u8>>, usize))
    requires
        i <= s@.len(),
    ensures
        words_view(res.0@) == list_from(s@, i as int).0,
        res.1 == list_from(s@, i as int).1,
{
    let mut words: Vec<Vec<u8>> = Vec::new();
    if !(i < s.len() && s[i] != SPACE) {
        assert(words_view(words@) =~= Seq::<Seq<u8>>::empty());
        return (words, i);
    }
    let first_end = find_word_end(s, i);
    proof {
        lemma_word_end(s@, i as int);
    }
    words.push(copy_range(s, i, first_end));
    let mut e = first_end;
    assert(words_view(words@) =~= seq![s@.subrange(i as int, first_end as int)]);
    while e < s.len() && s.len() - e > 1 && s[e] == SPACE && s[e + 1] != SPACE
        invariant
            i < e <= s@.len(),
            words_view(words@) + list_tail(s@, e as int).0 == list_from(s@, i as int).0,
            list_tail(s@, e as int).1 == list_from(s@, i as int).1,
        decreases s@.len() - e,
    {
        let w = find_word_end(s, e + 1);
        proof {
            lemma_word_end(s@, e + 1);
        }
        let ghost before = words@;
        words.push(copy_range(s, e + 1, w));
        proof {
            let word = s@.subrange(e + 1, w as int);
            assert(words_view(words@) =~= words_view(before).push(word));
            assert(list_tail(s@, e as int).0 =~= seq![word] + list_tail(s@, w as int).0);
            assert(words_view(words@) + list_tail(s@, w as int).0 =~= words_view(before)
                + list_tail(s@, e as int).0);
        }
        e = w;
    }
    assert(list_tail(s@, e as int).0 =~= Seq::<Seq<u8>>::empty());
    assert(words_view(words@) =~= words_view(words@) + list_tail(s@, e as int).0);
    (words, e)
}

/// Reads the commands that start at `i`.
fn read_commands(s: &[u8], i: usize) -> (res: (Vec<Vec<u8>>, usize))
    requires
        i <= s@.len(),
    ensures
        words_view(res.0@) == commands_from(s@, i as int).0,
        res.1 == commands_from(s@, i as int).1,
{
    let mut commands: Vec<Vec<u8>> = Vec::new();
    let mut e = i;
    assert(words_view(commands@) =~= Seq::<Seq<u8>>::empty());
    while e < s.len() && s.len() - e > 2 && s[e] == NEWLINE && s[e + 1] == TAB && s[e + 2] != SPACE
        invariant
            i <= e <= s@.len(),
            words_view(commands@) + commands_from(s@, e as int).0 == commands_from(s@, i as int).0,
            commands_from(s@, e as int).1 == commands_from(s@, i as int).1,
        decreases s@.len() - e,
    {
        let w = find_word_end(s, e + 2);
        proof {
            lemma_word_end(s@, e + 2);
        }
        let ghost before = commands@;
        commands.push(copy_range(s, e + 2, w));
        proof {
            let word = s@.subrange(e + 2, w as int);
            assert(words_view(commands@) =~= words_view(before).push(word));
            assert(commands_from(s@, e as int).0 =~= seq![word] + commands_from(s@, w as int).0);
            assert(words_view(commands@) + commands_from(s@, w as int).0 =~= words_view(before)
                + commands_from(s@, e as int).0);
        }
        e = w;
    }
    assert(commands_from(s@, e as int).0 =~= Seq::<Seq<u8>>::empty());
    assert(words_view(commands@) =~= words_view(commands@) + commands_from(s@, e as int).0);
    (commands, e)
}

/// Reads the rule that starts at `i`, if one does.
fn read_rule(s: &[u8], i: usize) -> (res: Option<(Rule, usize)>)
    requires
        i <= s@.len(),
    ensures
        match res {
            Some((r, f)) => rule_at(s@, i as int) == Some((r@, f as int)),
            None => rule_at(s@, i as int) is None,
        },
{
    let (targets, a) = read_list(s, i);
    proof {
        lemma_list_from(s@, i as int);
    }
    let b = skip_bytes(s, a, SPACE);
    proof {
        lemma_skip_all(s@, a as int, SPACE);
    }
    if b < s.len() && s[b] == COLON {
        let c = skip_bytes(s, b + 1, SPACE);
        proof {
            lemma_skip_all(s@, b + 1, SPACE);
        }
        let (prerequisites, d) = read_list(s, c);
        proof {
            lemma_list_from(s@, c as int);
        }
        let (commands, e) = read_commands(s, d);
        proof {
            lemma_commands_from(s@, d as int);
        }
        let f = skip_bytes(s, e, NEWLINE);
        let rule = Rule { targets, prerequisites, commands };
        Some((rule, f))
    } else {
        None
    }
}

/// Reads a whole makefile.
///
/// Rules are read one after another from the start; reading stops at the
/// first place where no rule starts. The result is the rules read when that
/// place is the end of the input, and otherwise an error that gives the
/// offset of that place.
pub fn parse(input: &[u8]) -> (res: Result<Vec<Rule>, ParseError>)
    ensures
        match res {
            Ok(rules) => spec_parse(input@) == Ok::<Seq<SpecRule>, int>(rules_view(rules@)),
            Err(e) => spec_parse(input@) == Err::<Seq<SpecRule>, int>(e.offset as int),
        },
{
    let mut rules: Vec<Rule> = Vec::new();
    let mut i: usize = 0;
    assert(rules_view(rules@) =~= Seq::<SpecRule>::empty());
    loop
        invariant
            i <= input@.len(),
            rules_view(rules@) + rules_from(input@, i as int).0 == rules_from(input@, 0).0,
            rules_from(input@, i as int).1 == rules_from(input@, 0).1,
        decreases input@.len() - i,
    {
        match read_rule(input, i) {
            Some((rule, f)) => {
                proof {
                    lemma_rule_at(input@, i as int);
                }
                let ghost before = rules@;
                let ghost r = rule@;
                rules.push(rule);
                proof {
                    assert(rules_view(rules@) =~= rules_view(before).push(r));
                    assert(rules_from(input@, i as int).0 =~= seq![r] + rules_from(
                        input@,
                        f as int,
                    ).0);
                    assert(rules_view(rules@) + rules_from(input@, f as int).0 =~= rules_view(
                        before,
                    ) + rules_from(input@, i as int).0);
                }
                i = f;
            },
            None => {
                assert(rules_from(input@, i as int).0 =~= Seq::<SpecRule>::empty());
                assert(rules_view(rules@) =~= rules_view(rules@) + rules_from(
                    input@,
                    i as int,
                ).0);
                if i == input.len() {
                    return Ok(rules);
                } else {
                    return Err(ParseError { offset: i });
                }
            },
        }
    }
}

} // verus!
