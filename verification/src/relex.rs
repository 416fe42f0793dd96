//! Reading a token again where its text stands in another text.
//!
//! A token is read from its first code point on, and how far the lexer
//! reads depends on the token's own text and, for some kinds, on the one
//! code point behind it. These lemmas say when a stretch of text that is a
//! token in one text is the same token in another.

use vstd::prelude::*;
use crate::lexer::{
    block_comment_scan, digits_end, ident_end, lemma_block_comment_scan, lemma_digits_end,
    lemma_string_scan, line_end, number_starts, punctuation_of, string_scan, token_at,
};
use crate::token::{is_digit, is_ident_part, is_ident_start, TokenKind};

verus! {

/// Whether `y` holds from `b` on the `n` code points that `s` holds from
/// `a` on.
pub open spec fn agrees(s: Seq<char>, a: int, y: Seq<char>, b: int, n: int) -> bool {
    &&& 0 <= a
    &&& 0 <= b
    &&& 0 <= n
    &&& a + n <= s.len()
    &&& b + n <= y.len()
    &&& forall|k: int| 0 <= k < n ==> #[trigger] y[b + k] == s[a + k]
}

/// Texts that agree on a stretch agree on what is left of it behind its
/// first `m` code points.
pub proof fn lemma_agrees_rest(s: Seq<char>, a: int, y: Seq<char>, b: int, n: int, m: int)
    requires
        agrees(s, a, y, b, n),
        0 <= m <= n,
    ensures
        agrees(s, a + m, y, b + m, n - m),
{
    assert forall|k: int| 0 <= k < n - m implies #[trigger] y[b + m + k] == s[a + m + k] by {
        assert(y[b + (m + k)] == s[a + (m + k)]);
    }
}

pub proof fn lemma_ident_end_moves(s: Seq<char>, a: int, y: Seq<char>, b: int, n: int)
    requires
        agrees(s, a, y, b, n),
        ident_end(s, a) == a + n,
        b + n < y.len() ==> !is_ident_part(y[b + n]),
    ensures
        ident_end(y, b) == b + n,
    decreases n,
{
    if n > 0 {
        assert(y[b + 0] == s[a + 0]);
        lemma_agrees_rest(s, a, y, b, n, 1);
        lemma_ident_end_moves(s, a + 1, y, b + 1, n - 1);
    }
}

pub proof fn lemma_digits_end_moves(s: Seq<char>, a: int, y: Seq<char>, b: int, n: int)
    requires
        agrees(s, a, y, b, n),
        digits_end(s, a) == a + n,
        b + n < y.len() ==> !is_digit(y[b + n]),
    ensures
        digits_end(y, b) == b + n,
    decreases n,
{
    if n > 0 {
        assert(y[b + 0] == s[a + 0]);
        lemma_agrees_rest(s, a, y, b, n, 1);
        lemma_digits_end_moves(s, a + 1, y, b + 1, n - 1);
    }
}

pub proof fn lemma_line_end_moves(s: Seq<char>, a: int, y: Seq<char>, b: int, n: int)
    requires
        agrees(s, a, y, b, n),
        line_end(s, a) == a + n,
        b + n < y.len() ==> y[b + n] == '\n',
    ensures
        line_end(y, b) == b + n,
    decreases n,
{
    if n > 0 {
        assert(y[b + 0] == s[a + 0]);
        lemma_agrees_rest(s, a, y, b, n, 1);
        lemma_line_end_moves(s, a + 1, y, b + 1, n - 1);
    }
}

pub proof fn lemma_string_scan_moves(s: Seq<char>, a: int, y: Seq<char>, b: int, n: int)
    requires
        agrees(s, a, y, b, n),
        string_scan(s, a) == (a + n, true),
    ensures
        string_scan(y, b) == (b + n, true),
    decreases n,
{
    if a < s.len() && s[a] != '"' && s[a] != '\n' {
        if s[a] == '\\' {
            lemma_string_scan(s, a + 2);
            assert(y[b + 0] == s[a + 0]);
            assert(y[b + 1] == s[a + 1]);
            lemma_agrees_rest(s, a, y, b, n, 2);
            lemma_string_scan_moves(s, a + 2, y, b + 2, n - 2);
        } else {
            lemma_string_scan(s, a + 1);
            assert(y[b + 0] == s[a + 0]);
            lemma_agrees_rest(s, a, y, b, n, 1);
            lemma_string_scan_moves(s, a + 1, y, b + 1, n - 1);
        }
    } else {
        assert(y[b + 0] == s[a + 0]);
    }
}

/// A closed block comment holds at least its closing mark.
pub proof fn lemma_block_comment_closed(s: Seq<char>, pos: int)
    requires
        0 <= pos,
        block_comment_scan(s, pos).1,
    ensures
        pos + 2 <= block_comment_scan(s, pos).0 <= s.len(),
    decreases s.len() - pos,
{
    if pos < s.len() && !(s[pos] == '*' && pos + 1 < s.len() && s[pos + 1] == '/') {
        lemma_block_comment_closed(s, pos + 1);
    }
}

pub proof fn lemma_block_comment_scan_moves(s: Seq<char>, a: int, y: Seq<char>, b: int, n: int)
    requires
        agrees(s, a, y, b, n),
        block_comment_scan(s, a) == (a + n, true),
    ensures
        block_comment_scan(y, b) == (b + n, true),
    decreases n,
{
    lemma_block_comment_closed(s, a);
    assert(y[b + 0] == s[a + 0]);
    assert(y[b + 1] == s[a + 1]);
    if !(s[a] == '*' && s[a + 1] == '/') {
        lemma_block_comment_closed(s, a + 1);
        lemma_agrees_rest(s, a, y, b, n, 1);
        lemma_block_comment_scan_moves(s, a + 1, y, b + 1, n - 1);
    }
}

/// Whether `c` may stand directly behind a token of kind `kind` without
/// becoming part of it: no identifier character behind an identifier, no
/// digit and no point behind a number, only a line break behind a line
/// comment. The other kinds of token end by themselves.
pub open spec fn may_follow(kind: TokenKind, c: char) -> bool {
    match kind {
        TokenKind::Identifier => !is_ident_part(c),
        TokenKind::Number => !is_digit(c) && c != '.',
        TokenKind::LineComment => c == '\n',
        _ => true,
    }
}

/// A token that is no error token is read again, with the same kind and
/// length, wherever its text stands in front of what may follow it.
pub proof fn lemma_token_moves(
    s: Seq<char>,
    a: int,
    y: Seq<char>,
    b: int,
    n: int,
    kind: TokenKind,
)
    requires
        agrees(s, a, y, b, n),
        a < s.len(),
        token_at(s, a) == (kind, a + n),
        kind != TokenKind::Error,
        b + n < y.len() ==> may_follow(kind, y[b + n]),
    ensures
        token_at(y, b) == (kind, b + n),
        n > 0,
{
    crate::lexer::lemma_token_at(s, a);
    let c = s[a];
    assert(y[b + 0] == s[a + 0]);
    if is_ident_start(c) {
        lemma_agrees_rest(s, a, y, b, n, 1);
        lemma_ident_end_moves(s, a + 1, y, b + 1, n - 1);
    } else if number_starts(s, a) {
        let skip: int = if c == '-' {
            1
        } else {
            0
        };
        lemma_digits_end(s, a + skip);
        let whole = digits_end(s, a + skip);
        if whole + 1 < s.len() {
            lemma_digits_end(s, whole + 1);
        }
        assert(a + skip < whole <= a + n);
        if skip == 1 {
            assert(y[b + 1] == s[a + 1]);
        }
        lemma_agrees_rest(s, a, y, b, n, skip);
        assert(agrees(s, a + skip, y, b + skip, whole - a - skip)) by {
            assert forall|k: int| 0 <= k < whole - a - skip implies #[trigger] y[b + skip + k]
                == s[a + skip + k] by {
                assert(y[b + (skip + k)] == s[a + (skip + k)]);
            }
        }
        if whole < a + n {
            assert(y[b + (whole - a)] == s[a + (whole - a)]);
            assert(y[b + (whole - a + 1)] == s[a + (whole - a + 1)]);
            lemma_digits_end_moves(s, a + skip, y, b + skip, whole - a - skip);
            lemma_agrees_rest(s, a, y, b, n, whole - a + 1);
            lemma_digits_end_moves(s, whole + 1, y, b + (whole - a) + 1, a + n - whole - 1);
        } else {
            lemma_digits_end_moves(s, a + skip, y, b + skip, whole - a - skip);
        }
        assert(number_starts(y, b));
        assert(digits_end(y, b + skip) == b + (whole - a));
    } else if c == '"' {
        lemma_agrees_rest(s, a, y, b, n, 1);
        lemma_string_scan_moves(s, a + 1, y, b + 1, n - 1);
    } else if c == '/' && a + 1 < s.len() && s[a + 1] == '/' {
        crate::lexer::lemma_line_end(s, a + 2);
        assert(y[b + 1] == s[a + 1]);
        lemma_agrees_rest(s, a, y, b, n, 2);
        lemma_line_end_moves(s, a + 2, y, b + 2, n - 2);
    } else if c == '/' && a + 1 < s.len() && s[a + 1] == '*' {
        lemma_block_comment_scan(s, a + 2);
        assert(y[b + 1] == s[a + 1]);
        lemma_agrees_rest(s, a, y, b, n, 2);
        lemma_block_comment_scan_moves(s, a + 2, y, b + 2, n - 2);
    } else {
        assert(punctuation_of(c) is Some);
    }
}

/// The first code point of a comma is a comma, and that of a closing
/// bracket is a closing bracket.
pub proof fn lemma_mark_of_kind(s: Seq<char>, a: int, kind: TokenKind, end: int)
    requires
        0 <= a < s.len(),
        token_at(s, a) == (kind, end),
    ensures
        kind == TokenKind::Comma ==> s[a] == ',',
        kind == TokenKind::RightBracket ==> s[a] == ']',
{
}

} // verus!
