//! The lexer: text to tokens.
//!
//! Lexing is total. A string literal that is not closed on its line, or that
//! holds an unknown escape, becomes an error token that runs to the end of
//! the line; a block comment that is never closed becomes an error token
//! that runs to the end of the text; any other unknown code point becomes
//! an error token of its own. Scanning always resumes after the token.

use vstd::prelude::*;
use crate::position::{
    advance_position, character_of, lemma_position_bounded, line_of, Position,
};
use crate::token::{
    digit, escape, ident_part, ident_start, is_digit, is_escape, is_ident_part, is_ident_start,
    is_space, space, Token, TokenKind,
};

verus! {

/// The first offset at or after `pos` that holds no whitespace.
pub open spec fn spaces_end(s: Seq<char>, pos: int) -> int
    decreases s.len() - pos,
{
    if 0 <= pos < s.len() && is_space(s[pos]) {
        spaces_end(s, pos + 1)
    } else {
        pos
    }
}

/// The first offset at or after `pos` that holds no identifier character.
pub open spec fn ident_end(s: Seq<char>, pos: int) -> int
    decreases s.len() - pos,
{
    if 0 <= pos < s.len() && is_ident_part(s[pos]) {
        ident_end(s, pos + 1)
    } else {
        pos
    }
}

/// The first offset at or after `pos` that holds no digit.
pub open spec fn digits_end(s: Seq<char>, pos: int) -> int
    decreases s.len() - pos,
{
    if 0 <= pos < s.len() && is_digit(s[pos]) {
        digits_end(s, pos + 1)
    } else {
        pos
    }
}

/// The offset of the first line break at or after `pos`, or the length of
/// the text when there is none.
pub open spec fn line_end(s: Seq<char>, pos: int) -> int
    decreases s.len() - pos,
{
    if 0 <= pos < s.len() && s[pos] != '\n' {
        line_end(s, pos + 1)
    } else {
        pos
    }
}

/// Whether a number starts at `pos`: a digit, or a minus sign and a digit.
pub open spec fn number_starts(s: Seq<char>, pos: int) -> bool {
    0 <= pos < s.len() && (is_digit(s[pos]) || (s[pos] == '-' && pos + 1 < s.len() && is_digit(
        s[pos + 1],
    )))
}

/// The end of the number that starts at `pos`: an optional minus sign,
/// digits, and an optional fraction of a point and at least one digit.
pub open spec fn number_end(s: Seq<char>, pos: int) -> int {
    let first = if s[pos] == '-' {
        pos + 1
    } else {
        pos
    };
    let whole = digits_end(s, first);
    if whole + 1 < s.len() && s[whole] == '.' && is_digit(s[whole + 1]) {
        digits_end(s, whole + 1)
    } else {
        whole
    }
}

/// Scans the inside of a string literal from `pos`, the offset after the
/// opening quote. Gives the end of the token and whether the literal is
/// well formed. A malformed literal ends at the end of its line.
pub open spec fn string_scan(s: Seq<char>, pos: int) -> (int, bool)
    decreases s.len() - pos,
{
    if pos < 0 || pos >= s.len() {
        (pos, false)
    } else if s[pos] == '"' {
        (pos + 1, true)
    } else if s[pos] == '\n' {
        (pos, false)
    } else if s[pos] == '\\' {
        if pos + 1 < s.len() && is_escape(s[pos + 1]) {
            string_scan(s, pos + 2)
        } else {
            (line_end(s, pos), false)
        }
    } else {
        string_scan(s, pos + 1)
    }
}

/// Scans the inside of a block comment from `pos`, the offset after the
/// opening mark. Gives the end of the token and whether the comment is
/// closed. An open comment ends with the text.
pub open spec fn block_comment_scan(s: Seq<char>, pos: int) -> (int, bool)
    decreases s.len() - pos,
{
    if pos < 0 || pos >= s.len() {
        (pos, false)
    } else if s[pos] == '*' && pos + 1 < s.len() && s[pos + 1] == '/' {
        (pos + 2, true)
    } else {
        block_comment_scan(s, pos + 1)
    }
}

/// The kind of a single punctuation mark, if `c` is one.
pub open spec fn punctuation_of(c: char) -> Option<TokenKind> {
    if c == '{' {
        Some(TokenKind::LeftBrace)
    } else if c == '}' {
        Some(TokenKind::RightBrace)
    } else if c == '[' {
        Some(TokenKind::LeftBracket)
    } else if c == ']' {
        Some(TokenKind::RightBracket)
    } else if c == '=' {
        Some(TokenKind::Equals)
    } else if c == ',' {
        Some(TokenKind::Comma)
    } else {
        None
    }
}

/// The kind and end of the token that starts at `start`, an offset of the
/// text that holds no whitespace.
pub open spec fn token_at(s: Seq<char>, start: int) -> (TokenKind, int) {
    let c = s[start];
    if is_ident_start(c) {
        (TokenKind::Identifier, ident_end(s, start + 1))
    } else if number_starts(s, start) {
        (TokenKind::Number, number_end(s, start))
    } else if c == '"' {
        let r = string_scan(s, start + 1);
        (
            if r.1 {
                TokenKind::Str
            } else {
                TokenKind::Error
            },
            r.0,
        )
    } else if c == '/' && start + 1 < s.len() && s[start + 1] == '/' {
        (TokenKind::LineComment, line_end(s, start + 2))
    } else if c == '/' && start + 1 < s.len() && s[start + 1] == '*' {
        let r = block_comment_scan(s, start + 2);
        (
            if r.1 {
                TokenKind::BlockComment
            } else {
                TokenKind::Error
            },
            r.0,
        )
    } else {
        match punctuation_of(c) {
            Some(kind) => (kind, start + 1),
            None => (TokenKind::Error, start + 1),
        }
    }
}

/// The token of kind `kind` whose whitespace starts at `trivia_start` and
/// whose text runs from `start` to `end`.
pub open spec fn token_from(
    s: Seq<char>,
    kind: TokenKind,
    trivia_start: int,
    start: int,
    end: int,
) -> Token {
    Token {
        kind,
        trivia_start: trivia_start as usize,
        start: start as usize,
        end: end as usize,
        start_pos: Position {
            line: line_of(s, start) as usize,
            character: character_of(s, start) as usize,
        },
        end_pos: Position {
            line: line_of(s, end) as usize,
            character: character_of(s, end) as usize,
        },
    }
}

/// The tokens of `s` from offset `pos` on.
pub open spec fn tokens_from(s: Seq<char>, pos: int) -> Seq<Token>
    decreases s.len() - pos,
{
    let start = spaces_end(s, pos);
    let t = token_at(s, start);
    if 0 <= pos <= start < t.1 <= s.len() {
        seq![token_from(s, t.0, pos, start, t.1)] + tokens_from(s, t.1)
    } else {
        Seq::empty()
    }
}

/// The tokens of `s`.
pub open spec fn tokens_of(s: Seq<char>) -> Seq<Token> {
    tokens_from(s, 0)
}

pub proof fn lemma_spaces_end(s: Seq<char>, pos: int)
    requires
        0 <= pos <= s.len(),
    ensures
        pos <= spaces_end(s, pos) <= s.len(),
        forall|i: int| pos <= i < spaces_end(s, pos) ==> is_space(s[i]),
        spaces_end(s, pos) < s.len() ==> !is_space(s[spaces_end(s, pos)]),
    decreases s.len() - pos,
{
    if pos < s.len() && is_space(s[pos]) {
        lemma_spaces_end(s, pos + 1);
    }
}

pub proof fn lemma_ident_end(s: Seq<char>, pos: int)
    requires
        0 <= pos <= s.len(),
    ensures
        pos <= ident_end(s, pos) <= s.len(),
    decreases s.len() - pos,
{
    if pos < s.len() && is_ident_part(s[pos]) {
        lemma_ident_end(s, pos + 1);
    }
}

pub proof fn lemma_digits_end(s: Seq<char>, pos: int)
    requires
        0 <= pos <= s.len(),
    ensures
        pos <= digits_end(s, pos) <= s.len(),
        pos < s.len() && is_digit(s[pos]) ==> pos < digits_end(s, pos),
    decreases s.len() - pos,
{
    if pos < s.len() && is_digit(s[pos]) {
        lemma_digits_end(s, pos + 1);
    }
}

pub proof fn lemma_line_end(s: Seq<char>, pos: int)
    requires
        0 <= pos <= s.len(),
    ensures
        pos <= line_end(s, pos) <= s.len(),
    decreases s.len() - pos,
{
    if pos < s.len() && s[pos] != '\n' {
        lemma_line_end(s, pos + 1);
    }
}

pub proof fn lemma_string_scan(s: Seq<char>, pos: int)
    requires
        0 <= pos <= s.len(),
    ensures
        pos <= string_scan(s, pos).0 <= s.len(),
    decreases s.len() - pos,
{
    if pos < s.len() && s[pos] != '"' && s[pos] != '\n' {
        if s[pos] == '\\' {
            if pos + 1 < s.len() && is_escape(s[pos + 1]) {
                lemma_string_scan(s, pos + 2);
            } else {
                lemma_line_end(s, pos);
            }
        } else {
            lemma_string_scan(s, pos + 1);
        }
    }
}

pub proof fn lemma_block_comment_scan(s: Seq<char>, pos: int)
    requires
        0 <= pos <= s.len(),
    ensures
        pos <= block_comment_scan(s, pos).0 <= s.len(),
    decreases s.len() - pos,
{
    if pos < s.len() && !(s[pos] == '*' && pos + 1 < s.len() && s[pos + 1] == '/') {
        lemma_block_comment_scan(s, pos + 1);
    }
}

/// A string literal that is not well formed ends where its line ends: at
/// a line break or at the end of the text.
pub proof fn lemma_open_string_ends_line(s: Seq<char>, pos: int)
    requires
        0 <= pos <= s.len(),
        !string_scan(s, pos).1,
    ensures
        string_scan(s, pos).0 == s.len() || s[string_scan(s, pos).0] == '\n',
    decreases s.len() - pos,
{
    if pos < s.len() && s[pos] != '"' && s[pos] != '\n' {
        if s[pos] == '\\' {
            if pos + 1 < s.len() && is_escape(s[pos + 1]) {
                lemma_open_string_ends_line(s, pos + 2);
            } else {
                lemma_line_end_stops(s, pos);
            }
        } else {
            lemma_open_string_ends_line(s, pos + 1);
        }
    }
}

/// A line ends at a line break or at the end of the text.
pub proof fn lemma_line_end_stops(s: Seq<char>, pos: int)
    requires
        0 <= pos <= s.len(),
    ensures
        line_end(s, pos) == s.len() || s[line_end(s, pos)] == '\n',
    decreases s.len() - pos,
{
    if pos < s.len() && s[pos] != '\n' {
        lemma_line_end_stops(s, pos + 1);
    }
}

/// A quote that opens no well-formed string literal starts an error token
/// that runs to the end of its line.
pub proof fn lemma_open_string_is_error(s: Seq<char>, start: int)
    requires
        0 <= start < s.len(),
        s[start] == '"',
        !string_scan(s, start + 1).1,
    ensures
        token_at(s, start).0 == TokenKind::Error,
        token_at(s, start).1 == s.len() || s[token_at(s, start).1] == '\n',
{
    lemma_open_string_ends_line(s, start + 1);
}

/// A token is never empty and never runs past the text.
pub proof fn lemma_token_at(s: Seq<char>, start: int)
    requires
        0 <= start < s.len(),
    ensures
        start < token_at(s, start).1 <= s.len(),
{
    let c = s[start];
    lemma_ident_end(s, start + 1);
    if number_starts(s, start) {
        let first = if c == '-' {
            start + 1
        } else {
            start
        };
        lemma_digits_end(s, first);
        let whole = digits_end(s, first);
        if whole + 1 < s.len() {
            lemma_digits_end(s, whole + 1);
        }
    }
    lemma_string_scan(s, start + 1);
    if start + 1 < s.len() {
        lemma_line_end(s, start + 2);
        lemma_block_comment_scan(s, start + 2);
    }
}

/// Whether `t` is a token of `s`: it lies inside the text behind its
/// whitespace, is what the lexer reads at its start, and carries the
/// positions of its two ends.
#[verifier::opaque]
pub open spec fn token_fits(s: Seq<char>, t: Token) -> bool {
    &&& t.trivia_start <= t.start < t.end <= s.len()
    &&& forall|j: int| t.trivia_start <= j < t.start ==> is_space(#[trigger] s[j])
    &&& !is_space(s[t.start as int])
    &&& token_at(s, t.start as int) == (t.kind, t.end as int)
    &&& crate::position::is_position_of(s, t.start as int, t.start_pos)
    &&& crate::position::is_position_of(s, t.end as int, t.end_pos)
}

/// The offset behind the last of `tokens`, or `from` when there is none.
pub open spec fn tail_start(tokens: Seq<Token>, from: int) -> int {
    if tokens.len() == 0 {
        from
    } else {
        tokens.last().end as int
    }
}

/// Whether `tokens` cover `s` from `from` on without gap or overlap: each
/// token's whitespace starts where the token before it ends, and only
/// whitespace follows the last one.
pub open spec fn tokens_cover(s: Seq<char>, tokens: Seq<Token>, from: int) -> bool {
    &&& forall|i: int| 0 <= i < tokens.len() ==> token_fits(s, #[trigger] tokens[i])
    &&& tokens.len() > 0 ==> tokens[0].trivia_start == from
    &&& forall|i: int, j: int|
        0 <= i && j == i + 1 && j < tokens.len() ==> (#[trigger] tokens[j]).trivia_start == (
        #[trigger] tokens[i]).end
    &&& from <= tail_start(tokens, from) <= s.len()
    &&& forall|j: int| tail_start(tokens, from) <= j < s.len() ==> is_space(#[trigger] s[j])
}

/// The first token the lexer reads from `pos` on is a token of the text.
proof fn lemma_first_token_fits(s: Seq<char>, pos: int)
    requires
        0 <= pos <= s.len() <= usize::MAX,
        spaces_end(s, pos) < s.len(),
    ensures
        token_fits(
            s,
            token_from(
                s,
                token_at(s, spaces_end(s, pos)).0,
                pos,
                spaces_end(s, pos),
                token_at(s, spaces_end(s, pos)).1,
            ),
        ),
{
    reveal(token_fits);
    lemma_spaces_end(s, pos);
    let start = spaces_end(s, pos);
    lemma_token_at(s, start);
    lemma_position_bounded(s, start);
    lemma_position_bounded(s, token_at(s, start).1);
}

/// The tokens the lexer reads from `pos` on cover the text from `pos` on.
pub proof fn lemma_tokens_from_cover(s: Seq<char>, pos: int)
    requires
        0 <= pos <= s.len() <= usize::MAX,
    ensures
        tokens_cover(s, tokens_from(s, pos), pos),
    decreases s.len() - pos,
{
    lemma_spaces_end(s, pos);
    let start = spaces_end(s, pos);
    if start < s.len() {
        lemma_token_at(s, start);
        let end = token_at(s, start).1;
        let first = token_from(s, token_at(s, start).0, pos, start, end);
        let rest = tokens_from(s, end);
        let all = tokens_from(s, pos);
        assert(all == seq![first] + rest);
        assert(first.end == end);
        assert(first.trivia_start == pos);
        lemma_first_token_fits(s, pos);
        lemma_tokens_from_cover(s, end);
        assert forall|i: int| 0 <= i < all.len() implies token_fits(s, #[trigger] all[i]) by {
            if i > 0 {
                assert(all[i] == rest[i - 1]);
            }
        }
        assert forall|i: int, j: int| 0 <= i && j == i + 1 && j < all.len() implies (
        #[trigger] all[j]).trivia_start == (#[trigger] all[i]).end by {
            assert(all[j] == rest[j - 1]);
            if i > 0 {
                assert(all[i] == rest[i - 1]);
            }
        }
        if rest.len() > 0 {
            assert(all.last() == rest.last());
        }
    } else {
        assert(tokens_from(s, pos) == Seq::<Token>::empty());
    }
}

/// What fitting the text says of a token's offsets and positions.
pub proof fn lemma_token_fits(s: Seq<char>, t: Token)
    requires
        token_fits(s, t),
    ensures
        t.trivia_start <= t.start < t.end <= s.len(),
        forall|j: int| t.trivia_start <= j < t.start ==> is_space(#[trigger] s[j]),
        !is_space(s[t.start as int]),
        token_at(s, t.start as int) == (t.kind, t.end as int),
        crate::position::is_position_of(s, t.start as int, t.start_pos),
        crate::position::is_position_of(s, t.end as int, t.end_pos),
{
    reveal(token_fits);
}

/// The tokens of a text cover it.
pub proof fn lemma_tokens_cover(s: Seq<char>)
    requires
        s.len() <= usize::MAX,
    ensures
        tokens_cover(s, tokens_of(s), 0),
{
    lemma_tokens_from_cover(s, 0);
}

/// There are no more tokens than code points.
pub proof fn lemma_tokens_from_count(s: Seq<char>, pos: int)
    requires
        0 <= pos <= s.len(),
    ensures
        tokens_from(s, pos).len() <= s.len() - pos,
    decreases s.len() - pos,
{
    let start = spaces_end(s, pos);
    let t = token_at(s, start);
    if 0 <= pos <= start < t.1 <= s.len() {
        lemma_tokens_from_count(s, t.1);
    }
}

/// Tokens stand in the text in the order of their indices, without
/// overlap.
pub proof fn lemma_tokens_ordered(s: Seq<char>, tokens: Seq<Token>, i: int, j: int)
    requires
        tokens_cover(s, tokens, 0),
        0 <= i < j < tokens.len(),
    ensures
        tokens[i].start < tokens[i].end <= tokens[j].start < tokens[j].end <= s.len(),
    decreases j - i,
{
    lemma_token_fits(s, tokens[i]);
    lemma_token_fits(s, tokens[j]);
    lemma_token_fits(s, tokens[j - 1]);
    assert(tokens[j].trivia_start == tokens[j - 1].end);
    if i < j - 1 {
        lemma_tokens_ordered(s, tokens, i, j - 1);
    }
}

fn scan_spaces(text: &Vec<char>, from: usize) -> (end: usize)
    requires
        from <= text.len(),
    ensures
        end == spaces_end(text@, from as int),
        from <= end <= text.len(),
{
    let mut i: usize = from;
    while i < text.len() && space(text[i])
        invariant
            from <= i <= text.len(),
            spaces_end(text@, i as int) == spaces_end(text@, from as int),
        decreases text.len() - i,
    {
        i = i + 1;
    }
    i
}

fn scan_ident(text: &Vec<char>, from: usize) -> (end: usize)
    requires
        from <= text.len(),
    ensures
        end == ident_end(text@, from as int),
        from <= end <= text.len(),
{
    let mut i: usize = from;
    while i < text.len() && ident_part(text[i])
        invariant
            from <= i <= text.len(),
            ident_end(text@, i as int) == ident_end(text@, from as int),
        decreases text.len() - i,
    {
        i = i + 1;
    }
    i
}

fn scan_digits(text: &Vec<char>, from: usize) -> (end: usize)
    requires
        from <= text.len(),
    ensures
        end == digits_end(text@, from as int),
        from <= end <= text.len(),
{
    let mut i: usize = from;
    while i < text.len() && digit(text[i])
        invariant
            from <= i <= text.len(),
            digits_end(text@, i as int) == digits_end(text@, from as int),
        decreases text.len() - i,
    {
        i = i + 1;
    }
    i
}

fn scan_line(text: &Vec<char>, from: usize) -> (end: usize)
    requires
        from <= text.len(),
    ensures
        end == line_end(text@, from as int),
        from <= end <= text.len(),
{
    let mut i: usize = from;
    while i < text.len() && text[i] != '\n'
        invariant
            from <= i <= text.len(),
            line_end(text@, i as int) == line_end(text@, from as int),
        decreases text.len() - i,
    {
        i = i + 1;
    }
    i
}

fn scan_number(text: &Vec<char>, from: usize) -> (end: usize)
    requires
        number_starts(text@, from as int),
    ensures
        end == number_end(text@, from as int),
{
    assert(from < text.len());
    let first: usize = if text[from] == '-' {
        from + 1
    } else {
        from
    };
    let whole = scan_digits(text, first);
    if whole < text.len() && text[whole] == '.' && whole + 1 < text.len() && digit(
        text[whole + 1],
    ) {
        scan_digits(text, whole + 1)
    } else {
        whole
    }
}

fn scan_string(text: &Vec<char>, from: usize) -> (r: (usize, bool))
    requires
        from <= text.len(),
    ensures
        (r.0 as int, r.1) == string_scan(text@, from as int),
{
    let mut i: usize = from;
    loop
        invariant
            from <= i <= text.len(),
            string_scan(text@, i as int) == string_scan(text@, from as int),
        decreases text.len() - i,
    {
        if i >= text.len() {
            return (i, false);
        }
        let c = text[i];
        if c == '"' {
            return (i + 1, true);
        }
        if c == '\n' {
            return (i, false);
        }
        if c == '\\' {
            if i + 1 < text.len() && escape(text[i + 1]) {
                i = i + 2;
            } else {
                return (scan_line(text, i), false);
            }
        } else {
            i = i + 1;
        }
    }
}

fn scan_block_comment(text: &Vec<char>, from: usize) -> (r: (usize, bool))
    requires
        from <= text.len(),
    ensures
        (r.0 as int, r.1) == block_comment_scan(text@, from as int),
{
    let mut i: usize = from;
    loop
        invariant
            from <= i <= text.len(),
            block_comment_scan(text@, i as int) == block_comment_scan(text@, from as int),
        decreases text.len() - i,
    {
        if i >= text.len() {
            return (i, false);
        }
        if text[i] == '*' && i + 1 < text.len() && text[i + 1] == '/' {
            return (i + 2, true);
        }
        i = i + 1;
    }
}

fn punctuation(c: char) -> (r: Option<TokenKind>)
    ensures
        r == punctuation_of(c),
{
    if c == '{' {
        Some(TokenKind::LeftBrace)
    } else if c == '}' {
        Some(TokenKind::RightBrace)
    } else if c == '[' {
        Some(TokenKind::LeftBracket)
    } else if c == ']' {
        Some(TokenKind::RightBracket)
    } else if c == '=' {
        Some(TokenKind::Equals)
    } else if c == ',' {
        Some(TokenKind::Comma)
    } else {
        None
    }
}

fn scan_token(text: &Vec<char>, start: usize) -> (r: (TokenKind, usize))
    requires
        start < text.len(),
    ensures
        (r.0, r.1 as int) == token_at(text@, start as int),
        start < r.1 <= text.len(),
{
    proof {
        lemma_token_at(text@, start as int);
    }
    let c = text[start];
    let more = start + 1 < text.len();
    if ident_start(c) {
        (TokenKind::Identifier, scan_ident(text, start + 1))
    } else if digit(c) || (c == '-' && more && digit(text[start + 1])) {
        (TokenKind::Number, scan_number(text, start))
    } else if c == '"' {
        let r = scan_string(text, start + 1);
        if r.1 {
            (TokenKind::Str, r.0)
        } else {
            (TokenKind::Error, r.0)
        }
    } else if c == '/' && more && text[start + 1] == '/' {
        (TokenKind::LineComment, scan_line(text, start + 2))
    } else if c == '/' && more && text[start + 1] == '*' {
        let r = scan_block_comment(text, start + 2);
        if r.1 {
            (TokenKind::BlockComment, r.0)
        } else {
            (TokenKind::Error, r.0)
        }
    } else {
        match punctuation(c) {
            Some(kind) => (kind, start + 1),
            None => (TokenKind::Error, start + 1),
        }
    }
}

/// Splits `text` into its tokens. Every text has tokens: what cannot be
/// read becomes an error token, and scanning goes on behind it.
pub fn tokenize(text: &Vec<char>) -> (tokens: Vec<Token>)
    ensures
        tokens@ == tokens_of(text@),
        tokens_cover(text@, tokens@, 0),
{
    let mut tokens: Vec<Token> = Vec::new();
    let mut pos: usize = 0;
    let mut at = Position { line: 0, character: 0 };
    loop
        invariant
            pos <= text.len(),
            crate::position::is_position_of(text@, pos as int, at),
            tokens_of(text@) == tokens@ + tokens_from(text@, pos as int),
        decreases text.len() - pos,
    {
        let start = scan_spaces(text, pos);
        if start >= text.len() {
            assert(tokens_from(text@, pos as int) == Seq::<Token>::empty());
            assert(tokens@ + Seq::<Token>::empty() == tokens@);
            proof {
                lemma_tokens_cover(text@);
            }
            return tokens;
        }
        let (kind, end) = scan_token(text, start);
        let start_pos = advance_position(text, pos, start, at);
        let end_pos = advance_position(text, start, end, start_pos);
        let token = Token { kind, trivia_start: pos, start, end, start_pos, end_pos };
        proof {
            lemma_position_bounded(text@, start as int);
            lemma_position_bounded(text@, end as int);
            assert(token == token_from(text@, kind, pos as int, start as int, end as int));
            assert(tokens_from(text@, pos as int) == seq![token] + tokens_from(
                text@,
                end as int,
            ));
            assert(tokens@.push(token) + tokens_from(text@, end as int) == tokens@ + (seq![token]
                + tokens_from(text@, end as int)));
        }
        tokens.push(token);
        pos = end;
        at = end_pos;
    }
}

} // verus!
