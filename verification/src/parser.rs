//! The parser: tokens to a document.
//!
//! The parser is a state machine that reads the kinds of the tokens one by
//! one and keeps the sections that are open on an explicit stack, so that
//! its own depth does not grow with the nesting of the text. It never
//! stops at an error: it reports the token, passes over what follows up to
//! the next comma, closing brace or identifier, and goes on from there.
//! While it passes over tokens it reports only those that the lexer could
//! not read.
//!
//! The grammar, over the tokens that are no comments:
//!
//! ```text
//! document  = section*
//! section   = IDENT IDENT? "{" item* "}"
//! item      = section | attribute ","?
//! attribute = IDENT "=" value
//! value     = scalar | "[" ( scalar ( "," scalar )* ","? )? "]"
//! scalar    = STRING | NUMBER | IDENT
//! ```

use vstd::prelude::*;
use crate::document::{
    Attribute, Document, DocumentView, Section, SyntaxError, SyntaxErrorKind, ValueKind,
};
use crate::token::{Token, TokenKind};

verus! {

/// Where the parser stands inside an item.
#[derive(Clone, Copy, Debug, PartialEq, Eq, Structural)]
pub enum Mode {
    /// An item may start, or the open section may close.
    Item,
    /// An attribute is complete; a comma may follow.
    Done,
    /// The identifier at token `first` was read.
    Head { first: usize },
    /// A kind tag and a name were read; the section's brace must follow.
    Labelled { kind: usize, name: usize },
    /// A key and `=` were read; a value must follow.
    Assign { key: usize },
    /// Inside the list opened at token `open`; `after` says that an element
    /// was just read.
    List { key: usize, open: usize, after: bool },
    /// Passing over tokens behind an error, `nested` braces deep.
    Recover { nested: usize },
}

/// What a token does to the document.
#[derive(Clone, Copy, Debug, PartialEq, Eq, Structural)]
pub enum Effect {
    Nothing,
    /// Opens a section with these kind and name tokens.
    Open { kind: usize, name: usize },
    /// Closes the innermost open section.
    Close,
    /// Completes an attribute of the innermost open section.
    Attribute { key: usize, value: ValueKind, first: usize },
    /// Is a comment.
    Comment,
}

/// The parser's reaction to one token.
#[derive(Clone, Copy, Debug, PartialEq, Eq, Structural)]
pub struct Step {
    pub mode: Mode,
    pub error: Option<SyntaxErrorKind>,
    pub effect: Effect,
}

/// The form of the value that a single token of kind `kind` is, if any.
pub open spec fn scalar_of(kind: TokenKind) -> Option<ValueKind> {
    match kind {
        TokenKind::Str => Some(ValueKind::Str),
        TokenKind::Number => Some(ValueKind::Number),
        TokenKind::Identifier => Some(ValueKind::Identifier),
        _ => None,
    }
}

/// The reaction to token `i` while passing over tokens behind an error: an
/// identifier starts an item, a comma ends the passage, a closing brace
/// closes the open section, an opening brace starts a nested passage.
pub open spec fn skip_step(kind: TokenKind, i: usize, inside: bool) -> Step {
    match kind {
        TokenKind::Identifier => Step {
            mode: Mode::Head { first: i },
            error: None,
            effect: Effect::Nothing,
        },
        TokenKind::Comma => Step { mode: Mode::Item, error: None, effect: Effect::Nothing },
        TokenKind::RightBrace => if inside {
            Step { mode: Mode::Item, error: None, effect: Effect::Close }
        } else {
            Step {
                mode: Mode::Item,
                error: Some(SyntaxErrorKind::UnmatchedBrace),
                effect: Effect::Nothing,
            }
        },
        TokenKind::LeftBrace => Step {
            mode: Mode::Recover { nested: 1 },
            error: None,
            effect: Effect::Nothing,
        },
        _ => Step { mode: Mode::Recover { nested: 0 }, error: None, effect: Effect::Nothing },
    }
}

/// The reaction to token `i` where it cannot stand: the error, and the
/// recovery that `skip_step` picks.
pub open spec fn failed_step(kind: TokenKind, i: usize, inside: bool) -> Step {
    let s = skip_step(kind, i, inside);
    Step {
        mode: s.mode,
        error: Some(
            if kind == TokenKind::RightBrace && !inside {
                SyntaxErrorKind::UnmatchedBrace
            } else {
                SyntaxErrorKind::UnexpectedToken
            },
        ),
        effect: s.effect,
    }
}

/// The reaction to token `i` where an item may start.
pub open spec fn item_step(kind: TokenKind, i: usize, inside: bool) -> Step {
    match kind {
        TokenKind::Identifier => skip_step(kind, i, inside),
        TokenKind::RightBrace => skip_step(kind, i, inside),
        _ => failed_step(kind, i, inside),
    }
}

/// The reaction to token `i`, of kind `kind`, in mode `mode`; `inside` says
/// whether a section is open. A comment changes nothing. A token that the
/// lexer could not read is an error wherever it stands, also behind
/// another error.
pub open spec fn step_of(mode: Mode, kind: TokenKind, i: usize, inside: bool) -> Step {
    if kind.is_comment() {
        Step { mode, error: None, effect: Effect::Comment }
    } else if kind == TokenKind::Error {
        Step {
            mode: if mode is Recover {
                mode
            } else {
                Mode::Recover { nested: 0 }
            },
            error: Some(SyntaxErrorKind::InvalidToken),
            effect: Effect::Nothing,
        }
    } else {
        match mode {
            Mode::Item => item_step(kind, i, inside),
            Mode::Done => if kind == TokenKind::Comma {
                Step { mode: Mode::Item, error: None, effect: Effect::Nothing }
            } else {
                item_step(kind, i, inside)
            },
            Mode::Head { first } => match kind {
                TokenKind::Equals => if inside {
                    Step { mode: Mode::Assign { key: first }, error: None, effect: Effect::Nothing }
                } else {
                    Step {
                        mode: Mode::Recover { nested: 0 },
                        error: Some(SyntaxErrorKind::AttributeOutsideSection),
                        effect: Effect::Nothing,
                    }
                },
                TokenKind::LeftBrace => Step {
                    mode: Mode::Item,
                    error: None,
                    effect: Effect::Open { kind: first, name: first },
                },
                TokenKind::Identifier => Step {
                    mode: Mode::Labelled { kind: first, name: i },
                    error: None,
                    effect: Effect::Nothing,
                },
                _ => failed_step(kind, i, inside),
            },
            Mode::Labelled { kind: tag, name } => match kind {
                TokenKind::LeftBrace => Step {
                    mode: Mode::Item,
                    error: None,
                    effect: Effect::Open { kind: tag, name },
                },
                _ => failed_step(kind, i, inside),
            },
            Mode::Assign { key } => match scalar_of(kind) {
                Some(value) => Step {
                    mode: Mode::Done,
                    error: None,
                    effect: Effect::Attribute { key, value, first: i },
                },
                None => if kind == TokenKind::LeftBracket {
                    Step {
                        mode: Mode::List { key, open: i, after: false },
                        error: None,
                        effect: Effect::Nothing,
                    }
                } else {
                    failed_step(kind, i, inside)
                },
            },
            Mode::List { key, open, after } => if kind == TokenKind::RightBracket {
                Step {
                    mode: Mode::Done,
                    error: None,
                    effect: Effect::Attribute { key, value: ValueKind::List, first: open },
                }
            } else if !after && scalar_of(kind) is Some {
                Step {
                    mode: Mode::List { key, open, after: true },
                    error: None,
                    effect: Effect::Nothing,
                }
            } else if after && kind == TokenKind::Comma {
                Step {
                    mode: Mode::List { key, open, after: false },
                    error: None,
                    effect: Effect::Nothing,
                }
            } else {
                failed_step(kind, i, inside)
            },
            Mode::Recover { nested } => if nested == 0 {
                skip_step(kind, i, inside)
            } else if kind == TokenKind::LeftBrace {
                Step {
                    mode: Mode::Recover {
                        nested: if nested < usize::MAX {
                            (nested + 1) as usize
                        } else {
                            nested
                        },
                    },
                    error: None,
                    effect: Effect::Nothing,
                }
            } else if kind == TokenKind::RightBrace {
                Step {
                    mode: Mode::Recover { nested: (nested - 1) as usize },
                    error: None,
                    effect: Effect::Nothing,
                }
            } else {
                Step { mode, error: None, effect: Effect::Nothing }
            },
        }
    }
}

fn scalar(kind: TokenKind) -> (r: Option<ValueKind>)
    ensures
        r == scalar_of(kind),
{
    match kind {
        TokenKind::Str => Some(ValueKind::Str),
        TokenKind::Number => Some(ValueKind::Number),
        TokenKind::Identifier => Some(ValueKind::Identifier),
        _ => None,
    }
}

fn skip(kind: TokenKind, i: usize, inside: bool) -> (r: Step)
    ensures
        r == skip_step(kind, i, inside),
{
    match kind {
        TokenKind::Identifier => Step {
            mode: Mode::Head { first: i },
            error: None,
            effect: Effect::Nothing,
        },
        TokenKind::Comma => Step { mode: Mode::Item, error: None, effect: Effect::Nothing },
        TokenKind::RightBrace => if inside {
            Step { mode: Mode::Item, error: None, effect: Effect::Close }
        } else {
            Step {
                mode: Mode::Item,
                error: Some(SyntaxErrorKind::UnmatchedBrace),
                effect: Effect::Nothing,
            }
        },
        TokenKind::LeftBrace => Step {
            mode: Mode::Recover { nested: 1 },
            error: None,
            effect: Effect::Nothing,
        },
        _ => Step { mode: Mode::Recover { nested: 0 }, error: None, effect: Effect::Nothing },
    }
}

fn failed(kind: TokenKind, i: usize, inside: bool) -> (r: Step)
    ensures
        r == failed_step(kind, i, inside),
{
    let s = skip(kind, i, inside);
    let error = if kind == TokenKind::RightBrace && !inside {
        SyntaxErrorKind::UnmatchedBrace
    } else {
        SyntaxErrorKind::UnexpectedToken
    };
    Step { mode: s.mode, error: Some(error), effect: s.effect }
}

fn item(kind: TokenKind, i: usize, inside: bool) -> (r: Step)
    ensures
        r == item_step(kind, i, inside),
{
    match kind {
        TokenKind::Identifier => skip(kind, i, inside),
        TokenKind::RightBrace => skip(kind, i, inside),
        _ => failed(kind, i, inside),
    }
}

/// Computes the parser's reaction to one token.
pub fn next_step(mode: Mode, kind: TokenKind, i: usize, inside: bool) -> (r: Step)
    ensures
        r == step_of(mode, kind, i, inside),
{
    if kind.comment() {
        return Step { mode, error: None, effect: Effect::Comment };
    }
    if kind == TokenKind::Error {
        let after = match mode {
            Mode::Recover { nested } => mode,
            _ => Mode::Recover { nested: 0 },
        };
        return Step {
            mode: after,
            error: Some(SyntaxErrorKind::InvalidToken),
            effect: Effect::Nothing,
        };
    }
    match mode {
        Mode::Item => item(kind, i, inside),
        Mode::Done => if kind == TokenKind::Comma {
            Step { mode: Mode::Item, error: None, effect: Effect::Nothing }
        } else {
            item(kind, i, inside)
        },
        Mode::Head { first } => match kind {
            TokenKind::Equals => if inside {
                Step { mode: Mode::Assign { key: first }, error: None, effect: Effect::Nothing }
            } else {
                Step {
                    mode: Mode::Recover { nested: 0 },
                    error: Some(SyntaxErrorKind::AttributeOutsideSection),
                    effect: Effect::Nothing,
                }
            },
            TokenKind::LeftBrace => Step {
                mode: Mode::Item,
                error: None,
                effect: Effect::Open { kind: first, name: first },
            },
            TokenKind::Identifier => Step {
                mode: Mode::Labelled { kind: first, name: i },
                error: None,
                effect: Effect::Nothing,
            },
            _ => failed(kind, i, inside),
        },
        Mode::Labelled { kind: tag, name } => match kind {
            TokenKind::LeftBrace => Step {
                mode: Mode::Item,
                error: None,
                effect: Effect::Open { kind: tag, name },
            },
            _ => failed(kind, i, inside),
        },
        Mode::Assign { key } => match scalar(kind) {
            Some(value) => Step {
                mode: Mode::Done,
                error: None,
                effect: Effect::Attribute { key, value, first: i },
            },
            None => if kind == TokenKind::LeftBracket {
                Step {
                    mode: Mode::List { key, open: i, after: false },
                    error: None,
                    effect: Effect::Nothing,
                }
            } else {
                failed(kind, i, inside)
            },
        },
        Mode::List { key, open, after } => if kind == TokenKind::RightBracket {
            Step {
                mode: Mode::Done,
                error: None,
                effect: Effect::Attribute { key, value: ValueKind::List, first: open },
            }
        } else if !after && scalar(kind).is_some() {
            Step { mode: Mode::List { key, open, after: true }, error: None, effect: Effect::Nothing }
        } else if after && kind == TokenKind::Comma {
            Step {
                mode: Mode::List { key, open, after: false },
                error: None,
                effect: Effect::Nothing,
            }
        } else {
            failed(kind, i, inside)
        },
        Mode::Recover { nested } => if nested == 0 {
            skip(kind, i, inside)
        } else if kind == TokenKind::LeftBrace {
            let deeper: usize = if nested < usize::MAX {
                nested + 1
            } else {
                nested
            };
            Step { mode: Mode::Recover { nested: deeper }, error: None, effect: Effect::Nothing }
        } else if kind == TokenKind::RightBrace {
            Step { mode: Mode::Recover { nested: nested - 1 }, error: None, effect: Effect::Nothing }
        } else {
            Step { mode, error: None, effect: Effect::Nothing }
        },
    }
}

/// The parser between two tokens: its mode, the stack of the sections that
/// are open (innermost last), and the document read so far.
pub struct Parser {
    pub mode: Mode,
    pub stack: Vec<usize>,
    pub sections: Vec<Section>,
    pub attributes: Vec<Attribute>,
    pub errors: Vec<SyntaxError>,
}

/// The mathematical value of a `Parser`.
pub struct ParserView {
    pub mode: Mode,
    pub stack: Seq<usize>,
    pub doc: DocumentView,
}

impl View for Parser {
    type V = ParserView;

    open spec fn view(&self) -> ParserView {
        ParserView {
            mode: self.mode,
            stack: self.stack@,
            doc: DocumentView {
                sections: self.sections@,
                attributes: self.attributes@,
                errors: self.errors@,
            },
        }
    }
}

/// The token at which an item that the end of the text cuts short began.
pub open spec fn pending_of(mode: Mode) -> Option<usize> {
    match mode {
        Mode::Head { first } => Some(first),
        Mode::Labelled { kind, name } => Some(kind),
        Mode::Assign { key } => Some(key),
        Mode::List { key, open, after } => Some(key),
        _ => None,
    }
}

impl ParserView {
    /// The parser before the first token.
    pub open spec fn start() -> ParserView {
        ParserView { mode: Mode::Item, stack: Seq::empty(), doc: DocumentView::empty() }
    }

    pub open spec fn inside(self) -> bool {
        self.stack.len() > 0
    }

    /// The document after `step` was taken at token `i`.
    pub open spec fn apply(self, step: Step, i: usize) -> ParserView {
        let errors = match step.error {
            Some(kind) => self.doc.errors.push(SyntaxError { token: i, kind }),
            None => self.doc.errors,
        };
        let sections = self.doc.sections;
        let attributes = self.doc.attributes;
        match step.effect {
            Effect::Open { kind, name } => ParserView {
                mode: step.mode,
                stack: self.stack.push(sections.len() as usize),
                doc: DocumentView {
                    sections: sections.push(
                        Section {
                            kind,
                            name,
                            open: i,
                            close: None,
                            parent: if self.inside() {
                                Some(self.stack.last())
                            } else {
                                None
                            },
                            depth: self.stack.len() as usize,
                            has_comment: false,
                        },
                    ),
                    attributes,
                    errors,
                },
            },
            Effect::Close if self.inside() => ParserView {
                mode: step.mode,
                stack: self.stack.drop_last(),
                doc: DocumentView {
                    sections: sections.update(
                        self.stack.last() as int,
                        Section { close: Some(i), ..sections[self.stack.last() as int] },
                    ),
                    attributes,
                    errors,
                },
            },
            Effect::Attribute { key, value, first } if self.inside() => ParserView {
                mode: step.mode,
                stack: self.stack,
                doc: DocumentView {
                    sections,
                    attributes: attributes.push(
                        Attribute { section: self.stack.last(), key, value, first, last: i },
                    ),
                    errors,
                },
            },
            Effect::Comment if self.inside() => ParserView {
                mode: step.mode,
                stack: self.stack,
                doc: DocumentView {
                    sections: sections.update(
                        self.stack.last() as int,
                        Section { has_comment: true, ..sections[self.stack.last() as int] },
                    ),
                    attributes,
                    errors,
                },
            },
            _ => ParserView {
                mode: step.mode,
                stack: self.stack,
                doc: DocumentView { sections, attributes, errors },
            },
        }
    }

    /// The parser after token `i`, of kind `kind`.
    pub open spec fn feed(self, kind: TokenKind, i: usize) -> ParserView {
        self.apply(step_of(self.mode, kind, i, self.inside()), i)
    }

    /// The document at the end of the text: an item cut short is an error
    /// at its first token, and each section still open is an error at its
    /// opening brace, outermost first.
    pub open spec fn finish(self) -> DocumentView {
        let errors = match pending_of(self.mode) {
            Some(token) => self.doc.errors.push(
                SyntaxError { token, kind: SyntaxErrorKind::UnexpectedEnd },
            ),
            None => self.doc.errors,
        };
        DocumentView {
            sections: self.doc.sections,
            attributes: self.doc.attributes,
            errors: errors + Seq::new(
                self.stack.len(),
                |j: int|
                    SyntaxError {
                        token: self.doc.sections[self.stack[j] as int].open,
                        kind: SyntaxErrorKind::MissingBrace,
                    },
            ),
        }
    }

    /// Whether the mode names only tokens below `i` that stand behind the
    /// opening brace of the innermost open section.
    pub open spec fn mode_ok(self, i: int) -> bool {
        let floor: int = if self.inside() {
            self.doc.sections[self.stack.last() as int].open as int
        } else {
            -1
        };
        match self.mode {
            Mode::Head { first } => floor < first < i,
            Mode::Labelled { kind, name } => floor < kind < name < i,
            Mode::Assign { key } => self.inside() && floor < key < i,
            Mode::List { key, open, after } => self.inside() && floor < key < open < i,
            _ => true,
        }
    }

    /// Whether the parser is in a sound state after `i` tokens.
    pub open spec fn ok(self, i: int) -> bool {
        &&& self.doc.well_formed(i)
        &&& self.stack.len() <= self.doc.sections.len() <= i
        &&& forall|j: int|
            0 <= j < self.stack.len() ==> (#[trigger] self.stack[j]) < self.doc.sections.len()
                && self.doc.sections[self.stack[j] as int].depth == j
                && self.doc.sections[self.stack[j] as int].close is None
        &&& forall|k: int|
            0 <= k < self.doc.sections.len() && (#[trigger] self.doc.sections[k]).close is None
                ==> self.doc.sections[k].depth < self.stack.len()
                && self.stack[self.doc.sections[k].depth as int] == k
        &&& self.mode_ok(i)
    }
}

/// The parser after the first `n` of the tokens whose kinds are `kinds`.
pub open spec fn run(kinds: Seq<TokenKind>, n: nat) -> ParserView
    decreases n,
{
    if n == 0 {
        ParserView::start()
    } else {
        run(kinds, (n - 1) as nat).feed(kinds[n - 1], (n - 1) as usize)
    }
}

/// The document of the tokens whose kinds are `kinds`.
pub open spec fn document_of(kinds: Seq<TokenKind>) -> DocumentView {
    run(kinds, kinds.len()).finish()
}

/// The kinds of `tokens`, in order.
pub open spec fn kinds_of(tokens: Seq<Token>) -> Seq<TokenKind> {
    tokens.map_values(|t: Token| t.kind)
}

/// A step keeps the parser sound.
pub proof fn lemma_feed_ok(p: ParserView, kind: TokenKind, i: usize)
    requires
        p.ok(i as int),
        i < usize::MAX,
    ensures
        p.feed(kind, i).ok(i + 1),
{
    let step = step_of(p.mode, kind, i, p.inside());
    let q = p.apply(step, i);
    let n = i + 1;
    assert(step.effect is Attribute ==> p.inside() && match step.effect {
        Effect::Attribute { key, value, first } => p.doc.sections[p.stack.last() as int].open
            < key < first <= i && (value != ValueKind::List ==> first == i),
        _ => true,
    });
    assert(step.effect is Close ==> p.inside());
    assert(step.effect is Open ==> match step.effect {
        Effect::Open { kind: tag, name } => tag <= name < i && (p.inside()
            ==> p.doc.sections[p.stack.last() as int].open < tag),
        _ => true,
    });
    assert forall|k: int| 0 <= k < p.doc.sections.len() implies #[trigger] q.doc.section_ok(
        k,
        n,
    ) by {
        assert(p.doc.section_ok(k, i as int));
    }
    assert forall|k: int| 0 <= k < q.doc.sections.len() implies #[trigger] q.doc.section_ok(
        k,
        n,
    ) by {
        if k >= p.doc.sections.len() && p.inside() {
            assert(p.stack[p.stack.len() - 1] < p.doc.sections.len());
        }
    }
    assert forall|a: int| 0 <= a < q.doc.attributes.len() implies #[trigger] q.doc.attribute_ok(
        a,
        n,
    ) by {
        if a < p.doc.attributes.len() {
            assert(p.doc.attribute_ok(a, i as int));
        } else {
            assert(p.stack[p.stack.len() - 1] < p.doc.sections.len());
        }
    }
    assert forall|e: int| 0 <= e < q.doc.errors.len() implies (#[trigger] q.doc.errors[e]).token
        < n by {
        if e < p.doc.errors.len() {
            assert(p.doc.errors[e].token < i);
        }
    }
    assert forall|j: int| 0 <= j < q.stack.len() implies (#[trigger] q.stack[j])
        < q.doc.sections.len() && q.doc.sections[q.stack[j] as int].depth == j by {
        if j < p.stack.len() {
            assert(p.stack[j] < p.doc.sections.len());
        }
    }
    if p.inside() {
        let top = p.stack[p.stack.len() - 1];
        assert(top < p.doc.sections.len());
        assert(p.doc.section_ok(top as int, i as int));
        assert(q.doc.sections[top as int].open == p.doc.sections[top as int].open);
    }
    if q.inside() {
        let top = q.stack[q.stack.len() - 1];
        assert(top < q.doc.sections.len());
        assert(q.doc.section_ok(top as int, n));
    }
    assert(q.mode_ok(n));
}

/// The parser is sound after any number of tokens.
pub proof fn lemma_run_ok(kinds: Seq<TokenKind>, n: nat)
    requires
        n <= kinds.len() <= usize::MAX,
    ensures
        run(kinds, n).ok(n as int),
    decreases n,
{
    if n > 0 {
        lemma_run_ok(kinds, (n - 1) as nat);
        lemma_feed_ok(run(kinds, (n - 1) as nat), kinds[n - 1], (n - 1) as usize);
    }
}

/// Finishing a sound parser gives a well-formed document.
pub proof fn lemma_finish_ok(p: ParserView, n: int)
    requires
        p.ok(n),
    ensures
        p.finish().well_formed(n),
{
    let d = p.finish();
    assert forall|k: int| 0 <= k < d.sections.len() implies #[trigger] d.section_ok(k, n) by {
        assert(p.doc.section_ok(k, n));
    }
    assert forall|a: int| 0 <= a < d.attributes.len() implies #[trigger] d.attribute_ok(a, n) by {
        assert(p.doc.attribute_ok(a, n));
    }
    assert forall|e: int| 0 <= e < d.errors.len() implies (#[trigger] d.errors[e]).token < n by {
        if e < p.doc.errors.len() {
            assert(p.doc.errors[e].token < n);
        } else if !(pending_of(p.mode) is Some && e == p.doc.errors.len()) {
            let base = if pending_of(p.mode) is Some {
                p.doc.errors.len() + 1
            } else {
                p.doc.errors.len()
            };
            let j = e - base;
            assert(p.stack[j] < p.doc.sections.len());
            assert(p.doc.section_ok(p.stack[j] as int, n));
        }
    }
}

/// The document of any tokens is a well-formed arena over them.
pub proof fn lemma_document_well_formed(kinds: Seq<TokenKind>)
    requires
        kinds.len() <= usize::MAX,
    ensures
        document_of(kinds).well_formed(kinds.len() as int),
{
    lemma_run_ok(kinds, kinds.len());
    lemma_finish_ok(run(kinds, kinds.len()), kinds.len() as int);
}

/// Whether the parser, if it has met no error, is not passing over tokens.
pub open spec fn is_calm(p: ParserView) -> bool {
    p.doc.errors.len() == 0 ==> !(p.mode is Recover)
}

/// A step that leaves the parser without error has met none: the parser
/// had none before, and the token is no error token.
pub proof fn lemma_feed_calm(p: ParserView, kind: TokenKind, i: usize)
    requires
        is_calm(p),
    ensures
        is_calm(p.feed(kind, i)),
        p.feed(kind, i).doc.errors.len() == 0 ==> p.doc.errors.len() == 0 && kind
            != TokenKind::Error,
{
}

/// A text without syntax error has no error token, and the parser met no
/// error at any of its tokens.
pub proof fn lemma_clean_run(kinds: Seq<TokenKind>, n: nat)
    requires
        n <= kinds.len(),
        run(kinds, n).doc.errors.len() == 0,
    ensures
        is_calm(run(kinds, n)),
        forall|i: int| 0 <= i < n ==> #[trigger] kinds[i] != TokenKind::Error,
    decreases n,
{
    lemma_run_calm(kinds, n);
    if n > 0 {
        lemma_run_calm(kinds, (n - 1) as nat);
        lemma_feed_calm(run(kinds, (n - 1) as nat), kinds[n - 1], (n - 1) as usize);
        lemma_clean_run(kinds, (n - 1) as nat);
    }
}

/// The parser is calm after any number of tokens.
pub proof fn lemma_run_calm(kinds: Seq<TokenKind>, n: nat)
    ensures
        is_calm(run(kinds, n)),
    decreases n,
{
    if n > 0 {
        lemma_run_calm(kinds, (n - 1) as nat);
        lemma_feed_calm(run(kinds, (n - 1) as nat), kinds[n - 1], (n - 1) as usize);
    }
}

/// A document without syntax error comes from tokens without an error
/// token.
pub proof fn lemma_clean_has_no_error_token(kinds: Seq<TokenKind>)
    requires
        document_of(kinds).is_clean(),
    ensures
        forall|i: int| 0 <= i < kinds.len() ==> #[trigger] kinds[i] != TokenKind::Error,
{
    let p = run(kinds, kinds.len());
    assert(p.doc.errors.len() <= p.finish().errors.len());
    lemma_clean_run(kinds, kinds.len());
}

/// The parser only ever adds to its errors.
pub proof fn lemma_errors_grow(kinds: Seq<TokenKind>, m: nat, n: nat)
    requires
        m <= n,
    ensures
        run(kinds, m).doc.errors.len() <= run(kinds, n).doc.errors.len(),
        forall|e: int|
            0 <= e < run(kinds, m).doc.errors.len() ==> #[trigger] run(kinds, n).doc.errors[e]
                == run(kinds, m).doc.errors[e],
    decreases n,
{
    if m < n {
        lemma_errors_grow(kinds, m, (n - 1) as nat);
    }
}

/// Every token that the lexer could not read is a syntax error of the
/// document, reported at that token.
pub proof fn lemma_error_token_is_reported(kinds: Seq<TokenKind>, i: int)
    requires
        0 <= i < kinds.len(),
        kinds[i] == TokenKind::Error,
    ensures
        document_of(kinds).errors.contains(
            SyntaxError { token: i as usize, kind: SyntaxErrorKind::InvalidToken },
        ),
{
    let before = run(kinds, i as nat);
    let after = run(kinds, (i + 1) as nat);
    let e = before.doc.errors.len() as int;
    assert(after == before.feed(kinds[i], i as usize));
    assert(after.doc.errors[e] == SyntaxError {
        token: i as usize,
        kind: SyntaxErrorKind::InvalidToken,
    });
    lemma_errors_grow(kinds, (i + 1) as nat, kinds.len());
    let end = run(kinds, kinds.len());
    assert(end.doc.errors[e] == after.doc.errors[e]);
    assert(document_of(kinds).errors[e] == end.doc.errors[e]);
}

impl Parser {
    /// The parser before the first token.
    pub fn new() -> (p: Parser)
        ensures
            p@ == ParserView::start(),
            p@.ok(0),
    {
        Parser {
            mode: Mode::Item,
            stack: Vec::new(),
            sections: Vec::new(),
            attributes: Vec::new(),
            errors: Vec::new(),
        }
    }

    /// Takes token `i`, of kind `kind`.
    pub fn feed(&mut self, kind: TokenKind, i: usize)
        requires
            old(self)@.ok(i as int),
            i < usize::MAX,
        ensures
            final(self)@ == old(self)@.feed(kind, i),
            final(self)@.ok(i + 1),
    {
        let inside = self.stack.len() > 0;
        let step = next_step(self.mode, kind, i, inside);
        proof {
            lemma_feed_ok(self@, kind, i);
        }
        self.mode = step.mode;
        match step.error {
            Some(kind) => {
                self.errors.push(SyntaxError { token: i, kind });
            },
            None => {},
        }
        match step.effect {
            Effect::Open { kind: tag, name } => {
                let parent = if inside {
                    Some(self.stack[self.stack.len() - 1])
                } else {
                    None
                };
                let index = self.sections.len();
                self.sections.push(
                    Section {
                        kind: tag,
                        name,
                        open: i,
                        close: None,
                        parent,
                        depth: self.stack.len(),
                        has_comment: false,
                    },
                );
                self.stack.push(index);
            },
            Effect::Close => {
                if inside {
                    let top = self.stack[self.stack.len() - 1];
                    let section = self.sections[top];
                    self.sections.set(top, Section { close: Some(i), ..section });
                    self.stack.pop();
                    assert(self.stack@ == old(self).stack@.drop_last());
                }
            },
            Effect::Attribute { key, value, first } => {
                if inside {
                    let top = self.stack[self.stack.len() - 1];
                    self.attributes.push(Attribute { section: top, key, value, first, last: i });
                }
            },
            Effect::Comment => {
                if inside {
                    let top = self.stack[self.stack.len() - 1];
                    let section = self.sections[top];
                    self.sections.set(top, Section { has_comment: true, ..section });
                }
            },
            Effect::Nothing => {},
        }
    }

    /// Ends the text after `n` tokens and gives the document.
    pub fn finish(self, n: usize) -> (d: Document)
        requires
            self@.ok(n as int),
        ensures
            d@ == self@.finish(),
            d@.well_formed(n as int),
    {
        proof {
            lemma_finish_ok(self@, n as int);
        }
        let ghost before = self@;
        let mut errors = self.errors;
        match self.mode {
            Mode::Head { first } => {
                errors.push(SyntaxError { token: first, kind: SyntaxErrorKind::UnexpectedEnd });
            },
            Mode::Labelled { kind, name } => {
                errors.push(SyntaxError { token: kind, kind: SyntaxErrorKind::UnexpectedEnd });
            },
            Mode::Assign { key } => {
                errors.push(SyntaxError { token: key, kind: SyntaxErrorKind::UnexpectedEnd });
            },
            Mode::List { key, open, after } => {
                errors.push(SyntaxError { token: key, kind: SyntaxErrorKind::UnexpectedEnd });
            },
            _ => {},
        }
        let ghost base = errors@;
        let stack = self.stack;
        let sections = self.sections;
        let mut j: usize = 0;
        while j < stack.len()
            invariant
                j <= stack.len(),
                stack@ == before.stack,
                sections@ == before.doc.sections,
                before.ok(n as int),
                errors@ == base + Seq::new(
                    j as nat,
                    |k: int|
                        SyntaxError {
                            token: before.doc.sections[before.stack[k] as int].open,
                            kind: SyntaxErrorKind::MissingBrace,
                        },
                ),
            decreases stack.len() - j,
        {
            assert(before.stack[j as int] < before.doc.sections.len());
            let open = sections[stack[j]].open;
            errors.push(SyntaxError { token: open, kind: SyntaxErrorKind::MissingBrace });
            j = j + 1;
        }
        Document { sections, attributes: self.attributes, errors }
    }
}

/// Parses `tokens` into a document. The document depends on the kinds of
/// the tokens alone, and every index in it names one of the tokens.
pub fn parse(tokens: &Vec<Token>) -> (d: Document)
    ensures
        d@ == document_of(kinds_of(tokens@)),
        d@.well_formed(tokens.len() as int),
{
    let ghost kinds = kinds_of(tokens@);
    let mut parser = Parser::new();
    let mut i: usize = 0;
    while i < tokens.len()
        invariant
            i <= tokens.len(),
            kinds == kinds_of(tokens@),
            parser@ == run(kinds, i as nat),
            parser@.ok(i as int),
        decreases tokens.len() - i,
    {
        parser.feed(tokens[i].kind, i);
        i = i + 1;
    }
    parser.finish(i)
}

} // verus!
