//! The linter: rules over the attributes of a document.
//!
//! Each rule looks at one attribute in its section and answers:
//! nothing to report, one finding, or a fault, where the rule could not be
//! evaluated. A fault of one rule becomes one diagnostic of its own and
//! leaves the other rules and the other attributes alone. The findings of
//! all rules and the syntax errors of the parser are reported together, in
//! the order of the text, each once.

use vstd::prelude::*;
use crate::diagnostic::{
    is_sorted, lemma_sorted_starts_ascend, sort_diagnostics, starts_ascend, Code, Diagnostic,
};
use crate::document::{Document, DocumentView, SyntaxError, SyntaxErrorKind, ValueKind};
use crate::format::{document_in, token_text};
use crate::lexer::{
    lemma_token_fits, lemma_tokens_cover, lemma_tokens_from_count, lemma_tokens_ordered, token_fits, tokenize, tokens_cover,
    tokens_of,
};
use crate::parser::{
    kinds_of, lemma_document_well_formed, lemma_error_token_is_reported, parse,
};
use crate::position::{is_position_of, Position};
use crate::text::same_range;
use crate::token::{Token, TokenKind};

verus! {

/// What is known of one key in sections of one kind: the form its value
/// must have, if any is required, and whether the key is deprecated.
pub struct KeyRule {
    pub section: Vec<char>,
    pub key: Vec<char>,
    pub expected: Option<ValueKind>,
    pub deprecated: bool,
}

/// The keys that are known, by kind of section. A kind of section with no
/// rule is unknown, and any key may stand in such a section.
pub struct Schema {
    pub rules: Vec<KeyRule>,
}

/// The rules of the linter, in the order in which they are applied.
#[derive(Clone, Copy, Debug, PartialEq, Eq, Structural)]
pub enum Rule {
    DuplicateAttribute,
    UnknownAttribute,
    TypeMismatch,
    Deprecated,
}

/// What a rule says of one attribute.
#[derive(Clone, Copy, Debug, PartialEq, Eq, Structural)]
pub enum Outcome {
    Clear,
    Finding(Diagnostic),
    Fault,
}

/// The diagnostic with code `code` for the tokens from `first` to `last`.
pub open spec fn diagnostic_at(tokens: Seq<Token>, first: int, last: int, code: Code) -> Diagnostic {
    Diagnostic {
        level: code.level_of(),
        code,
        start_line: tokens[first].start_pos.line,
        start_character: tokens[first].start_pos.character,
        end_line: tokens[last].end_pos.line,
        end_character: tokens[last].end_pos.character,
    }
}

/// The code under which a syntax error is reported.
pub open spec fn code_of(kind: SyntaxErrorKind) -> Code {
    match kind {
        SyntaxErrorKind::InvalidToken => Code::InvalidToken,
        SyntaxErrorKind::UnexpectedToken => Code::UnexpectedToken,
        SyntaxErrorKind::UnmatchedBrace => Code::UnmatchedBrace,
        SyntaxErrorKind::AttributeOutsideSection => Code::AttributeOutsideSection,
        SyntaxErrorKind::UnexpectedEnd => Code::UnexpectedEnd,
        SyntaxErrorKind::MissingBrace => Code::MissingBrace,
    }
}

/// The text of the key of attribute `a`.
pub open spec fn key_text(s: Seq<char>, tokens: Seq<Token>, doc: DocumentView, a: int) -> Seq<char> {
    token_text(s, tokens[doc.attributes[a].key as int])
}

/// The text of the kind tag of the section of attribute `a`.
pub open spec fn kind_text(s: Seq<char>, tokens: Seq<Token>, doc: DocumentView, a: int) -> Seq<
    char,
> {
    token_text(s, tokens[doc.sections[doc.attributes[a].section as int].kind as int])
}

/// Whether an attribute before `a`, among the first `m`, has the section
/// and the key of `a`.
pub open spec fn repeats_below(
    s: Seq<char>,
    tokens: Seq<Token>,
    doc: DocumentView,
    a: int,
    m: int,
) -> bool {
    exists|b: int|
        0 <= b < m && b < a && (#[trigger] doc.attributes[b]).section == doc.attributes[a].section
            && key_text(s, tokens, doc, b) == key_text(s, tokens, doc, a)
}

/// Whether one of the first `m` rules is about sections of kind `kind`.
pub open spec fn kind_known(rules: Seq<KeyRule>, kind: Seq<char>, m: int) -> bool {
    exists|r: int| 0 <= r < m && r < rules.len() && (#[trigger] rules[r]).section@ == kind
}

/// The first rule from `from` on that is about key `key` in sections of
/// kind `kind`.
pub open spec fn rule_for(rules: Seq<KeyRule>, kind: Seq<char>, key: Seq<char>, from: int) -> Option<
    int,
>
    decreases rules.len() - from,
{
    if from < 0 || from >= rules.len() {
        None
    } else if rules[from].section@ == kind && rules[from].key@ == key {
        Some(from)
    } else {
        rule_for(rules, kind, key, from + 1)
    }
}

/// What `rule` says of attribute `a`.
pub open spec fn outcome_of(
    rule: Rule,
    s: Seq<char>,
    tokens: Seq<Token>,
    doc: DocumentView,
    rules: Seq<KeyRule>,
    a: int,
) -> Outcome {
    let at = doc.attributes[a];
    let known = rule_for(rules, kind_text(s, tokens, doc, a), key_text(s, tokens, doc, a), 0);
    match rule {
        Rule::DuplicateAttribute => if repeats_below(s, tokens, doc, a, a) {
            Outcome::Finding(
                diagnostic_at(tokens, at.key as int, at.last as int, Code::DuplicateAttribute),
            )
        } else {
            Outcome::Clear
        },
        Rule::UnknownAttribute => if known is None && kind_known(
            rules,
            kind_text(s, tokens, doc, a),
            rules.len() as int,
        ) {
            Outcome::Finding(
                diagnostic_at(tokens, at.key as int, at.key as int, Code::UnknownAttribute),
            )
        } else {
            Outcome::Clear
        },
        Rule::TypeMismatch => match known {
            Some(r) => match rules[r].expected {
                Some(value) => if value != at.value {
                    Outcome::Finding(
                        diagnostic_at(tokens, at.first as int, at.last as int, Code::TypeMismatch),
                    )
                } else {
                    Outcome::Clear
                },
                None => Outcome::Clear,
            },
            None => Outcome::Clear,
        },
        Rule::Deprecated => match known {
            Some(r) => if rules[r].deprecated {
                Outcome::Finding(
                    diagnostic_at(tokens, at.key as int, at.key as int, Code::Deprecated),
                )
            } else {
                Outcome::Clear
            },
            None => Outcome::Clear,
        },
    }
}

/// What an outcome for attribute `a` adds to the diagnostics: nothing, the
/// finding, or for a fault one diagnostic with the code kept for it.
pub open spec fn absorbed(outcome: Outcome, tokens: Seq<Token>, doc: DocumentView, a: int) -> Seq<
    Diagnostic,
> {
    match outcome {
        Outcome::Clear => Seq::empty(),
        Outcome::Finding(d) => seq![d],
        Outcome::Fault => seq![
            diagnostic_at(
                tokens,
                doc.attributes[a].key as int,
                doc.attributes[a].last as int,
                Code::InternalRuleError,
            ),
        ],
    }
}

/// What all rules, in their order, find at attribute `a`.
pub open spec fn attribute_findings(
    s: Seq<char>,
    tokens: Seq<Token>,
    doc: DocumentView,
    rules: Seq<KeyRule>,
    a: int,
) -> Seq<Diagnostic> {
    absorbed(outcome_of(Rule::DuplicateAttribute, s, tokens, doc, rules, a), tokens, doc, a)
        + absorbed(outcome_of(Rule::UnknownAttribute, s, tokens, doc, rules, a), tokens, doc, a)
        + absorbed(outcome_of(Rule::TypeMismatch, s, tokens, doc, rules, a), tokens, doc, a)
        + absorbed(outcome_of(Rule::Deprecated, s, tokens, doc, rules, a), tokens, doc, a)
}

/// What all rules find at the first `m` attributes.
pub open spec fn rule_findings(
    s: Seq<char>,
    tokens: Seq<Token>,
    doc: DocumentView,
    rules: Seq<KeyRule>,
    m: nat,
) -> Seq<Diagnostic>
    decreases m,
{
    if m == 0 {
        Seq::empty()
    } else {
        rule_findings(s, tokens, doc, rules, (m - 1) as nat) + attribute_findings(
            s,
            tokens,
            doc,
            rules,
            m - 1,
        )
    }
}

/// The syntax errors of `doc` as diagnostics, each at its token.
pub open spec fn syntax_findings(tokens: Seq<Token>, doc: DocumentView) -> Seq<Diagnostic> {
    Seq::new(
        doc.errors.len(),
        |e: int|
            diagnostic_at(
                tokens,
                doc.errors[e].token as int,
                doc.errors[e].token as int,
                code_of(doc.errors[e].kind),
            ),
    )
}

/// Everything there is to report of the text `s` under `rules`, in no
/// particular order.
pub open spec fn findings_of(s: Seq<char>, rules: Seq<KeyRule>) -> Seq<Diagnostic> {
    syntax_findings(tokens_of(s), document_in(s)) + rule_findings(
        s,
        tokens_of(s),
        document_in(s),
        rules,
        document_in(s).attributes.len(),
    )
}

/// Whether `d` is about a stretch of `s`: its start and its end are the
/// positions of two offsets of the text, the first not behind the second.
pub open spec fn lies_in(s: Seq<char>, d: Diagnostic) -> bool {
    exists|from: int, to: int|
        0 <= from <= to <= s.len() && is_position_of(
            s,
            from,
            Position { line: d.start_line, character: d.start_character },
        ) && is_position_of(s, to, Position { line: d.end_line, character: d.end_character })
}

/// A diagnostic for tokens of a text is about a stretch of the text.
pub proof fn lemma_diagnostic_lies_in(
    s: Seq<char>,
    tokens: Seq<Token>,
    first: int,
    last: int,
    code: Code,
)
    requires
        tokens_cover(s, tokens, 0),
        0 <= first <= last < tokens.len(),
    ensures
        lies_in(s, diagnostic_at(tokens, first, last, code)),
{
    lemma_token_fits(s, tokens[first]);
    lemma_token_fits(s, tokens[last]);
    if first < last {
        lemma_tokens_ordered(s, tokens, first, last);
    }
    let d = diagnostic_at(tokens, first, last, code);
    let from = tokens[first].start as int;
    let to = tokens[last].end as int;
    assert(0 <= from <= to <= s.len() && is_position_of(
        s,
        from,
        Position { line: d.start_line, character: d.start_character },
    ) && is_position_of(s, to, Position { line: d.end_line, character: d.end_character }));
}

/// What the rules find at an attribute is about stretches of the text.
pub proof fn lemma_attribute_findings_lie_in(
    s: Seq<char>,
    tokens: Seq<Token>,
    doc: DocumentView,
    rules: Seq<KeyRule>,
    a: int,
)
    requires
        tokens_cover(s, tokens, 0),
        doc.well_formed(tokens.len() as int),
        0 <= a < doc.attributes.len(),
    ensures
        forall|d: Diagnostic|
            attribute_findings(s, tokens, doc, rules, a).contains(d) ==> lies_in(s, d),
{
    let at = doc.attributes[a];
    assert(doc.attribute_ok(a, tokens.len() as int));
    lemma_diagnostic_lies_in(s, tokens, at.key as int, at.last as int, Code::DuplicateAttribute);
    lemma_diagnostic_lies_in(s, tokens, at.key as int, at.last as int, Code::InternalRuleError);
    lemma_diagnostic_lies_in(s, tokens, at.key as int, at.key as int, Code::UnknownAttribute);
    lemma_diagnostic_lies_in(s, tokens, at.first as int, at.last as int, Code::TypeMismatch);
    lemma_diagnostic_lies_in(s, tokens, at.key as int, at.key as int, Code::Deprecated);
    let one = absorbed(outcome_of(Rule::DuplicateAttribute, s, tokens, doc, rules, a), tokens, doc, a);
    let two = absorbed(outcome_of(Rule::UnknownAttribute, s, tokens, doc, rules, a), tokens, doc, a);
    let three = absorbed(outcome_of(Rule::TypeMismatch, s, tokens, doc, rules, a), tokens, doc, a);
    let four = absorbed(outcome_of(Rule::Deprecated, s, tokens, doc, rules, a), tokens, doc, a);
    assert forall|d: Diagnostic|
        attribute_findings(s, tokens, doc, rules, a).contains(d) implies lies_in(s, d) by {
        let all = one + two + three + four;
        let k = choose|k: int| 0 <= k < all.len() && all[k] == d;
        if k < one.len() {
            assert(d == one[k]);
        } else if k < one.len() + two.len() {
            assert(d == two[k - one.len()]);
        } else if k < one.len() + two.len() + three.len() {
            assert(d == three[k - one.len() - two.len()]);
        } else {
            assert(d == four[k - one.len() - two.len() - three.len()]);
        }
    }
}

/// What the rules find at the first `m` attributes is about stretches of
/// the text.
pub proof fn lemma_rule_findings_lie_in(
    s: Seq<char>,
    tokens: Seq<Token>,
    doc: DocumentView,
    rules: Seq<KeyRule>,
    m: nat,
)
    requires
        tokens_cover(s, tokens, 0),
        doc.well_formed(tokens.len() as int),
        m <= doc.attributes.len(),
    ensures
        forall|d: Diagnostic| rule_findings(s, tokens, doc, rules, m).contains(d) ==> lies_in(s, d),
    decreases m,
{
    if m > 0 {
        lemma_rule_findings_lie_in(s, tokens, doc, rules, (m - 1) as nat);
        lemma_attribute_findings_lie_in(s, tokens, doc, rules, m - 1);
        let before = rule_findings(s, tokens, doc, rules, (m - 1) as nat);
        let here = attribute_findings(s, tokens, doc, rules, m - 1);
        assert forall|d: Diagnostic|
            rule_findings(s, tokens, doc, rules, m).contains(d) implies lies_in(s, d) by {
            let all = before + here;
            let k = choose|k: int| 0 <= k < all.len() && all[k] == d;
            if k < before.len() {
                assert(before[k] == d);
                assert(before.contains(d));
            } else {
                assert(here[k - before.len()] == d);
                assert(here.contains(d));
            }
        }
    }
}

/// Every finding of a text is about a stretch of that text.
pub proof fn lemma_findings_lie_in(s: Seq<char>, rules: Seq<KeyRule>)
    requires
        s.len() <= usize::MAX,
    ensures
        forall|d: Diagnostic| findings_of(s, rules).contains(d) ==> lies_in(s, d),
{
    let tokens = tokens_of(s);
    let doc = document_in(s);
    lemma_tokens_cover(s);
    lemma_tokens_from_count(s, 0);
    assert(kinds_of(tokens).len() == tokens.len());
    lemma_document_well_formed(kinds_of(tokens));
    lemma_rule_findings_lie_in(s, tokens, doc, rules, doc.attributes.len());
    let syntax = syntax_findings(tokens, doc);
    let found = rule_findings(s, tokens, doc, rules, doc.attributes.len());
    assert forall|d: Diagnostic| findings_of(s, rules).contains(d) implies lies_in(s, d) by {
        let all = syntax + found;
        let k = choose|k: int| 0 <= k < all.len() && all[k] == d;
        if k < syntax.len() {
            let at = doc.errors[k].token as int;
            lemma_diagnostic_lies_in(s, tokens, at, at, code_of(doc.errors[k].kind));
        } else {
            assert(found[k - syntax.len()] == d);
            assert(found.contains(d));
        }
    }
}

/// Every stretch of a text that the lexer could not read is among the
/// findings of the text, as an unreadable token at that stretch.
pub proof fn lemma_unreadable_is_found(s: Seq<char>, rules: Seq<KeyRule>, i: int)
    requires
        s.len() <= usize::MAX,
        0 <= i < tokens_of(s).len(),
        tokens_of(s)[i].kind == TokenKind::Error,
    ensures
        findings_of(s, rules).contains(diagnostic_at(tokens_of(s), i, i, Code::InvalidToken)),
{
    lemma_tokens_from_count(s, 0);
    let tokens = tokens_of(s);
    let doc = document_in(s);
    let error = SyntaxError { token: i as usize, kind: SyntaxErrorKind::InvalidToken };
    assert(kinds_of(tokens)[i] == TokenKind::Error);
    lemma_error_token_is_reported(kinds_of(tokens), i);
    let e = choose|e: int| 0 <= e < doc.errors.len() && doc.errors[e] == error;
    let syntax = syntax_findings(tokens, doc);
    assert(syntax[e] == diagnostic_at(tokens, i, i, Code::InvalidToken));
    assert(findings_of(s, rules)[e] == syntax[e]);
}

/// The result of linting a text: its diagnostics in the order of the text,
/// their number, and whether there is none.
pub struct LintResult {
    pub total_count: usize,
    pub success: bool,
    pub diagnostics: Vec<Diagnostic>,
}

impl Schema {
    /// The schema that knows no kind of section.
    pub fn empty() -> (schema: Schema)
        ensures
            schema.rules@.len() == 0,
    {
        Schema { rules: Vec::new() }
    }
}

fn diagnostic(tokens: &Vec<Token>, first: usize, last: usize, code: Code) -> (d: Diagnostic)
    requires
        first < tokens.len(),
        last < tokens.len(),
    ensures
        d == diagnostic_at(tokens@, first as int, last as int, code),
{
    Diagnostic {
        level: code.level(),
        code,
        start_line: tokens[first].start_pos.line,
        start_character: tokens[first].start_pos.character,
        end_line: tokens[last].end_pos.line,
        end_character: tokens[last].end_pos.character,
    }
}

fn code_for(kind: SyntaxErrorKind) -> (code: Code)
    ensures
        code == code_of(kind),
{
    match kind {
        SyntaxErrorKind::InvalidToken => Code::InvalidToken,
        SyntaxErrorKind::UnexpectedToken => Code::UnexpectedToken,
        SyntaxErrorKind::UnmatchedBrace => Code::UnmatchedBrace,
        SyntaxErrorKind::AttributeOutsideSection => Code::AttributeOutsideSection,
        SyntaxErrorKind::UnexpectedEnd => Code::UnexpectedEnd,
        SyntaxErrorKind::MissingBrace => Code::MissingBrace,
    }
}

/// Whether the text of token `t` is `word`.
fn token_is(text: &Vec<char>, t: Token, word: &Vec<char>) -> (r: bool)
    requires
        token_fits(text@, t),
    ensures
        r == (token_text(text@, t) == word@),
{
    proof {
        lemma_token_fits(text@, t);
        assert(word@.subrange(0, word.len() as int) =~= word@);
    }
    same_range(text, t.start, t.end, word, 0, word.len())
}

/// Whether tokens `x` and `y` have the same text.
fn same_text(text: &Vec<char>, x: Token, y: Token) -> (r: bool)
    requires
        token_fits(text@, x),
        token_fits(text@, y),
    ensures
        r == (token_text(text@, x) == token_text(text@, y)),
{
    proof {
        lemma_token_fits(text@, x);
        lemma_token_fits(text@, y);
    }
    same_range(text, x.start, x.end, text, y.start, y.end)
}

fn repeats(text: &Vec<char>, tokens: &Vec<Token>, doc: &Document, a: usize) -> (r: bool)
    requires
        tokens_cover(text@, tokens@, 0),
        doc@.well_formed(tokens.len() as int),
        a < doc.attributes.len(),
    ensures
        r == repeats_below(text@, tokens@, doc@, a as int, a as int),
{
    let at = doc.attributes[a];
    proof {
        assert(doc@.attribute_ok(a as int, tokens.len() as int));
    }
    let mut b: usize = 0;
    while b < a
        invariant
            b <= a < doc.attributes.len(),
            at == doc.attributes@[a as int],
            at.key < tokens.len(),
            tokens_cover(text@, tokens@, 0),
            doc@.well_formed(tokens.len() as int),
            !repeats_below(text@, tokens@, doc@, a as int, b as int),
        decreases a - b,
    {
        let other = doc.attributes[b];
        proof {
            assert(doc@.attribute_ok(b as int, tokens.len() as int));
        }
        if other.section == at.section && same_text(text, tokens[other.key], tokens[at.key]) {
            assert(repeats_below(text@, tokens@, doc@, a as int, a as int));
            return true;
        }
        proof {
            if repeats_below(text@, tokens@, doc@, a as int, b + 1) {
                let w = choose|w: int|
                    0 <= w < b + 1 && w < a && (#[trigger] doc@.attributes[w]).section
                        == doc@.attributes[a as int].section && key_text(text@, tokens@, doc@, w)
                        == key_text(text@, tokens@, doc@, a as int);
                if w < b {
                    assert(repeats_below(text@, tokens@, doc@, a as int, b as int));
                }
            }
        }
        b = b + 1;
    }
    false
}

fn knows_kind(text: &Vec<char>, kind: Token, schema: &Schema) -> (r: bool)
    requires
        token_fits(text@, kind),
    ensures
        r == kind_known(schema.rules@, token_text(text@, kind), schema.rules.len() as int),
{
    let ghost word = token_text(text@, kind);
    let mut i: usize = 0;
    while i < schema.rules.len()
        invariant
            i <= schema.rules.len(),
            token_fits(text@, kind),
            word == token_text(text@, kind),
            !kind_known(schema.rules@, word, i as int),
        decreases schema.rules.len() - i,
    {
        if token_is(text, kind, &schema.rules[i].section) {
            assert(kind_known(schema.rules@, word, schema.rules.len() as int));
            return true;
        }
        proof {
            if kind_known(schema.rules@, word, i + 1) {
                let w = choose|w: int|
                    0 <= w < i + 1 && w < schema.rules@.len() && (
                    #[trigger] schema.rules@[w]).section@ == word;
                if w < i {
                    assert(kind_known(schema.rules@, word, i as int));
                }
            }
        }
        i = i + 1;
    }
    false
}

fn find_rule(text: &Vec<char>, kind: Token, key: Token, schema: &Schema) -> (r: Option<usize>)
    requires
        token_fits(text@, kind),
        token_fits(text@, key),
    ensures
        match r {
            Some(i) => rule_for(schema.rules@, token_text(text@, kind), token_text(text@, key), 0)
                == Some(i as int) && i < schema.rules.len(),
            None => rule_for(schema.rules@, token_text(text@, kind), token_text(text@, key), 0)
                is None,
        },
{
    let ghost want = rule_for(schema.rules@, token_text(text@, kind), token_text(text@, key), 0);
    let mut i: usize = 0;
    while i < schema.rules.len()
        invariant
            i <= schema.rules.len(),
            token_fits(text@, kind),
            token_fits(text@, key),
            want == rule_for(schema.rules@, token_text(text@, kind), token_text(text@, key), 0),
            want == rule_for(
                schema.rules@,
                token_text(text@, kind),
                token_text(text@, key),
                i as int,
            ),
        decreases schema.rules.len() - i,
    {
        if token_is(text, kind, &schema.rules[i].section) && token_is(
            text,
            key,
            &schema.rules[i].key,
        ) {
            return Some(i);
        }
        i = i + 1;
    }
    None
}

/// Applies `rule` to attribute `a`. None of the rules here ever faults.
pub fn check(
    rule: Rule,
    text: &Vec<char>,
    tokens: &Vec<Token>,
    doc: &Document,
    schema: &Schema,
    a: usize,
) -> (v: Outcome)
    requires
        tokens_cover(text@, tokens@, 0),
        doc@.well_formed(tokens.len() as int),
        a < doc.attributes.len(),
    ensures
        v == outcome_of(rule, text@, tokens@, doc@, schema.rules@, a as int),
        v !is Fault,
{
    let at = doc.attributes[a];
    proof {
        assert(doc@.attribute_ok(a as int, tokens.len() as int));
        assert(doc@.section_ok(at.section as int, tokens.len() as int));
    }
    let kind = tokens[doc.sections[at.section].kind];
    let key = tokens[at.key];
    match rule {
        Rule::DuplicateAttribute => if repeats(text, tokens, doc, a) {
            Outcome::Finding(diagnostic(tokens, at.key, at.last, Code::DuplicateAttribute))
        } else {
            Outcome::Clear
        },
        Rule::UnknownAttribute => {
            let known = find_rule(text, kind, key, schema);
            if known.is_none() && knows_kind(text, kind, schema) {
                Outcome::Finding(diagnostic(tokens, at.key, at.key, Code::UnknownAttribute))
            } else {
                Outcome::Clear
            }
        },
        Rule::TypeMismatch => match find_rule(text, kind, key, schema) {
            Some(r) => match schema.rules[r].expected {
                Some(value) => if value != at.value {
                    Outcome::Finding(diagnostic(tokens, at.first, at.last, Code::TypeMismatch))
                } else {
                    Outcome::Clear
                },
                None => Outcome::Clear,
            },
            None => Outcome::Clear,
        },
        Rule::Deprecated => match find_rule(text, kind, key, schema) {
            Some(r) => if schema.rules[r].deprecated {
                Outcome::Finding(diagnostic(tokens, at.key, at.key, Code::Deprecated))
            } else {
                Outcome::Clear
            },
            None => Outcome::Clear,
        },
    }
}

/// Adds to `out` what an outcome for attribute `a` has to report. A fault
/// becomes one diagnostic with the code kept for it.
pub fn absorb(
    out: &mut Vec<Diagnostic>,
    outcome: Outcome,
    tokens: &Vec<Token>,
    doc: &Document,
    a: usize,
)
    requires
        doc@.well_formed(tokens.len() as int),
        a < doc.attributes.len(),
    ensures
        final(out)@ == old(out)@ + absorbed(outcome, tokens@, doc@, a as int),
{
    proof {
        assert(doc@.attribute_ok(a as int, tokens.len() as int));
    }
    match outcome {
        Outcome::Clear => {
            assert(out@ =~= old(out)@ + Seq::<Diagnostic>::empty());
        },
        Outcome::Finding(d) => {
            out.push(d);
            assert(out@ =~= old(out)@ + seq![d]);
        },
        Outcome::Fault => {
            let d = diagnostic(
                tokens,
                doc.attributes[a].key,
                doc.attributes[a].last,
                Code::InternalRuleError,
            );
            out.push(d);
            assert(out@ =~= old(out)@ + seq![d]);
        },
    }
}

/// Lints `text` under `schema`: the syntax errors of the text and the
/// findings of the rules, sorted, each once.
pub fn lint_text(text: &Vec<char>, schema: &Schema) -> (r: LintResult)
    ensures
        is_sorted(r.diagnostics@),
        starts_ascend(r.diagnostics@),
        forall|d: Diagnostic|
            r.diagnostics@.contains(d) <==> findings_of(text@, schema.rules@).contains(d),
        forall|d: Diagnostic| r.diagnostics@.contains(d) ==> lies_in(text@, d),
        r.total_count == r.diagnostics@.len(),
        r.success <==> r.total_count == 0,
{
    proof {
        assert(text@.len() == text.len());
        lemma_findings_lie_in(text@, schema.rules@);
    }
    let tokens = tokenize(text);
    let doc = parse(&tokens);
    let mut found: Vec<Diagnostic> = Vec::new();
    let mut e: usize = 0;
    while e < doc.errors.len()
        invariant
            e <= doc.errors.len(),
            doc@.well_formed(tokens.len() as int),
            found@ == syntax_findings(tokens@, doc@).take(e as int),
        decreases doc.errors.len() - e,
    {
        let error = doc.errors[e];
        found.push(diagnostic(&tokens, error.token, error.token, code_for(error.kind)));
        e = e + 1;
        assert(found@ =~= syntax_findings(tokens@, doc@).take(e as int));
    }
    assert(found@ =~= syntax_findings(tokens@, doc@));
    let mut a: usize = 0;
    while a < doc.attributes.len()
        invariant
            a <= doc.attributes.len(),
            tokens_cover(text@, tokens@, 0),
            doc@.well_formed(tokens.len() as int),
            found@ == syntax_findings(tokens@, doc@) + rule_findings(
                text@,
                tokens@,
                doc@,
                schema.rules@,
                a as nat,
            ),
        decreases doc.attributes.len() - a,
    {
        let ghost base = found@;
        let first = check(Rule::DuplicateAttribute, text, &tokens, &doc, schema, a);
        absorb(&mut found, first, &tokens, &doc, a);
        let second = check(Rule::UnknownAttribute, text, &tokens, &doc, schema, a);
        absorb(&mut found, second, &tokens, &doc, a);
        let third = check(Rule::TypeMismatch, text, &tokens, &doc, schema, a);
        absorb(&mut found, third, &tokens, &doc, a);
        let fourth = check(Rule::Deprecated, text, &tokens, &doc, schema, a);
        absorb(&mut found, fourth, &tokens, &doc, a);
        assert(found@ =~= base + attribute_findings(
            text@,
            tokens@,
            doc@,
            schema.rules@,
            a as int,
        ));
        a = a + 1;
        assert(found@ =~= syntax_findings(tokens@, doc@) + rule_findings(
            text@,
            tokens@,
            doc@,
            schema.rules@,
            a as nat,
        ));
    }
    let diagnostics = sort_diagnostics(&found);
    proof {
        lemma_sorted_starts_ascend(diagnostics@);
    }
    let total_count = diagnostics.len();
    LintResult { total_count, success: total_count == 0, diagnostics }
}

} // verus!
