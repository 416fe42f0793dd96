//! The formatter.
//!
//! A text that parses without a syntax error is laid out canonically; any
//! other text is returned as it is, with no edit. The layout of a text
//! holds the same tokens as the text and is its own layout, so that
//! formatting never changes what a text means and never changes a text
//! twice.

use vstd::prelude::*;
use crate::document::DocumentView;
use crate::layout::{roles, roles_of, Role};
use crate::lexer::{lemma_token_fits, lemma_tokens_cover, tokenize, tokens_cover, tokens_of};
use crate::parser::{document_of, kinds_of, lemma_clean_has_no_error_token, parse};
use crate::render::{
    edits_are_needed, edits_fit, lemma_rendered_applies, lemma_rendered_edits_needed, patched,
    push_range, render, rendered, Edit,
};
use crate::stable::{lemma_layout_is_stable, no_error_token};
use crate::text::same_range;
use crate::token::{Token, TokenKind};

verus! {

/// The text of token `t` of `s`.
pub open spec fn token_text(s: Seq<char>, t: Token) -> Seq<char> {
    s.subrange(t.start as int, t.end as int)
}

/// Whether the tokens `ta` of `a` and the tokens `tb` of `b` are the same
/// in number, kinds and texts.
pub open spec fn same_tokens(a: Seq<char>, ta: Seq<Token>, b: Seq<char>, tb: Seq<Token>) -> bool {
    &&& ta.len() == tb.len()
    &&& forall|i: int|
        0 <= i < ta.len() ==> (#[trigger] ta[i]).kind == tb[i].kind && token_text(a, ta[i])
            == token_text(b, tb[i])
}

/// The document of a text.
pub open spec fn document_in(s: Seq<char>) -> DocumentView {
    document_of(kinds_of(tokens_of(s)))
}

/// The roles of the tokens of a text.
pub open spec fn roles_in(s: Seq<char>) -> Seq<Role> {
    roles_of(document_in(s), tokens_of(s).len())
}

/// The canonical layout of a text.
pub open spec fn layout_of(s: Seq<char>) -> Seq<char> {
    rendered(s, tokens_of(s), roles_in(s)).out
}

/// Whether the layout of `s` can stand for `s`: it has the tokens of `s`,
/// and laying it out again changes nothing.
pub open spec fn is_stable(s: Seq<char>) -> bool {
    let y = layout_of(s);
    &&& same_tokens(s, tokens_of(s), y, tokens_of(y))
    &&& rendered(y, tokens_of(y), roles_in(s)).out == y
}

/// Whether formatting changes `s`: it parses without error, its layout can
/// stand for it, and the layout differs from it. The layout can stand for
/// every text that parses without error and that the machine can hold
/// (`lemma_clean_is_stable`); the condition stands here so that the laws of
/// formatting hold of texts of any length.
pub open spec fn is_changed(s: Seq<char>) -> bool {
    document_in(s).is_clean() && is_stable(s) && layout_of(s) != s
}

/// The formatted text of `s`.
pub open spec fn formatted_text(s: Seq<char>) -> Seq<char> {
    if is_changed(s) {
        layout_of(s)
    } else {
        s
    }
}

/// The edits that format `s`.
pub open spec fn formatted_edits(s: Seq<char>) -> Seq<Edit> {
    if is_changed(s) {
        rendered(s, tokens_of(s), roles_in(s)).edits
    } else {
        Seq::empty()
    }
}

/// What is left of a text when whitespace is set aside: the kinds and the
/// texts of its tokens, and with them its document.
pub struct Structure {
    pub kinds: Seq<TokenKind>,
    pub texts: Seq<Seq<char>>,
    pub document: DocumentView,
}

/// The structure of a text.
pub open spec fn structure_of(s: Seq<char>) -> Structure {
    Structure {
        kinds: kinds_of(tokens_of(s)),
        texts: Seq::new(tokens_of(s).len(), |i: int| token_text(s, tokens_of(s)[i])),
        document: document_in(s),
    }
}

/// Two texts have the same structure exactly when they have the same
/// tokens.
pub proof fn lemma_structure_is_tokens(a: Seq<char>, b: Seq<char>)
    ensures
        structure_of(a) == structure_of(b) <==> same_tokens(a, tokens_of(a), b, tokens_of(b)),
{
    let ta = tokens_of(a);
    let tb = tokens_of(b);
    if same_tokens(a, ta, b, tb) {
        assert(kinds_of(ta) =~= kinds_of(tb));
        assert(structure_of(a).texts =~= structure_of(b).texts);
    }
    if structure_of(a) == structure_of(b) {
        assert(kinds_of(ta).len() == kinds_of(tb).len());
        assert forall|i: int| 0 <= i < ta.len() implies (#[trigger] ta[i]).kind == tb[i].kind
            && token_text(a, ta[i]) == token_text(b, tb[i]) by {
            assert(kinds_of(ta)[i] == kinds_of(tb)[i]);
            assert(structure_of(a).texts[i] == structure_of(b).texts[i]);
        }
    }
}

/// Texts with the same tokens have tokens of the same kinds.
pub proof fn lemma_same_kinds(a: Seq<char>, ta: Seq<Token>, b: Seq<char>, tb: Seq<Token>)
    requires
        same_tokens(a, ta, b, tb),
    ensures
        kinds_of(ta) == kinds_of(tb),
{
    assert(kinds_of(ta) =~= kinds_of(tb));
}

/// Formatting a formatted text changes nothing: it needs no edit, and
/// gives the same text again.
pub proof fn lemma_format_idempotent(s: Seq<char>)
    ensures
        formatted_edits(formatted_text(s)).len() == 0,
        formatted_text(formatted_text(s)) == formatted_text(s),
{
    if is_changed(s) {
        let y = layout_of(s);
        lemma_same_kinds(s, tokens_of(s), y, tokens_of(y));
        assert(document_in(y) == document_in(s));
        assert(roles_in(y) == roles_in(s));
        assert(layout_of(y) == y);
        assert(!is_changed(y));
    }
}

/// Formatting keeps the structure of a text: the formatted text has the
/// same document and the same token texts.
pub proof fn lemma_format_preserves_structure(s: Seq<char>)
    ensures
        structure_of(formatted_text(s)) == structure_of(s),
{
    if is_changed(s) {
        lemma_structure_is_tokens(s, layout_of(s));
    }
}

/// The layout of a text that parses without error can stand for the text:
/// it has the tokens of the text and is its own layout. This holds of
/// every text that is, with its layout, of a length that the machine can
/// hold.
pub proof fn lemma_clean_is_stable(s: Seq<char>)
    requires
        s.len() <= usize::MAX,
        layout_of(s).len() <= usize::MAX,
        document_in(s).is_clean(),
    ensures
        is_stable(s),
{
    let t = tokens_of(s);
    lemma_tokens_cover(s);
    lemma_clean_has_no_error_token(kinds_of(t));
    assert(no_error_token(t)) by {
        assert forall|i: int| 0 <= i < t.len() implies (#[trigger] t[i]).kind
            != TokenKind::Error by {
            assert(kinds_of(t)[i] == t[i].kind);
        }
    }
    lemma_layout_is_stable(s, t, roles_in(s));
}

/// Formatting lays out every text that parses without error, and leaves
/// every other text as it is.
pub proof fn lemma_format_lays_out(s: Seq<char>)
    requires
        s.len() <= usize::MAX,
        layout_of(s).len() <= usize::MAX,
    ensures
        document_in(s).is_clean() ==> formatted_text(s) == layout_of(s),
        !document_in(s).is_clean() ==> formatted_text(s) == s,
{
    if document_in(s).is_clean() {
        lemma_clean_is_stable(s);
    }
}

/// The edits of a text make the formatted text of it; each of them
/// replaces whitespace by other whitespace; and there are none exactly
/// when the formatted text is the text itself.
pub proof fn lemma_edits_make_formatted(s: Seq<char>)
    requires
        s.len() <= usize::MAX,
    ensures
        edits_fit(formatted_edits(s), s.len() as int),
        edits_are_needed(s, formatted_edits(s)),
        patched(s, formatted_edits(s)) == formatted_text(s),
        formatted_edits(s).len() == 0 <==> formatted_text(s) == s,
{
    lemma_tokens_cover(s);
    lemma_rendered_applies(s, tokens_of(s), roles_in(s));
    lemma_rendered_edits_needed(s, tokens_of(s), roles_in(s));
    assert(patched(s, Seq::<Edit>::empty()) =~= s);
}

/// A formatted text and the edits that lead to it.
pub struct Formatted {
    pub text: Vec<char>,
    pub edits: Vec<Edit>,
}

/// Whether two texts have the same structure: the same tokens, and so the
/// same document, whatever whitespace stands between the tokens.
pub fn same_structure(a: &Vec<char>, b: &Vec<char>) -> (r: bool)
    ensures
        r == (structure_of(a@) == structure_of(b@)),
{
    proof {
        lemma_structure_is_tokens(a@, b@);
    }
    let ta = tokenize(a);
    let tb = tokenize(b);
    if ta.len() != tb.len() {
        return false;
    }
    let mut i: usize = 0;
    while i < ta.len()
        invariant
            i <= ta.len(),
            ta.len() == tb.len(),
            ta@ == tokens_of(a@),
            tb@ == tokens_of(b@),
            tokens_cover(a@, ta@, 0),
            tokens_cover(b@, tb@, 0),
            structure_of(a@) == structure_of(b@) <==> same_tokens(a@, ta@, b@, tb@),
            forall|k: int|
                0 <= k < i ==> (#[trigger] ta@[k]).kind == tb@[k].kind && token_text(a@, ta@[k])
                    == token_text(b@, tb@[k]),
        decreases ta.len() - i,
    {
        let x = ta[i];
        let y = tb[i];
        proof {
            lemma_token_fits(a@, x);
            lemma_token_fits(b@, y);
        }
        if x.kind != y.kind || !same_range(a, x.start, x.end, b, y.start, y.end) {
            assert(!(ta@[i as int].kind == tb@[i as int].kind && token_text(a@, ta@[i as int])
                == token_text(b@, tb@[i as int])));
            return false;
        }
        i = i + 1;
    }
    true
}

/// A copy of `text`.
fn copy_of(text: &Vec<char>) -> (r: Vec<char>)
    ensures
        r@ == text@,
{
    let mut r: Vec<char> = Vec::new();
    push_range(&mut r, text, 0, text.len());
    assert(text@.subrange(0, text.len() as int) =~= text@);
    r
}

/// Formats `text`: a text that parses without error is laid out
/// canonically, any other text comes back as it is. The edits are those
/// that turn `text` into the result.
pub fn format_text(text: &Vec<char>) -> (r: Formatted)
    ensures
        r.text@ == formatted_text(text@),
        r.edits@ == formatted_edits(text@),
        document_in(text@).is_clean() ==> r.text@ == layout_of(text@),
        !document_in(text@).is_clean() ==> r.text@ == text@ && r.edits@.len() == 0,
{
    let tokens = tokenize(text);
    let doc = parse(&tokens);
    if doc.errors.len() > 0 {
        return Formatted { text: copy_of(text), edits: Vec::new() };
    }
    let table = roles(&doc, tokens.len());
    let layout = render(text, &tokens, &table);
    let whole: usize = layout.text.len();
    let changed = !same_range(&layout.text, 0, whole, text, 0, text.len());
    proof {
        assert(layout.text@.subrange(0, whole as int) =~= layout.text@);
        assert(text@.subrange(0, text.len() as int) =~= text@);
        lemma_clean_is_stable(text@);
    }
    if changed {
        Formatted { text: layout.text, edits: layout.edits }
    } else {
        Formatted { text: copy_of(text), edits: Vec::new() }
    }
}

} // verus!
