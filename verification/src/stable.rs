//! The canonical layout of a text reads as the text does: it has the same
//! tokens, and it is its own layout.

use vstd::prelude::*;
use crate::layout::{gap_at_end, gap_before, Cursor, Gap, Role, INDENT};
use crate::lexer::{
    lemma_token_fits, spaces_end, tail_start, token_from, tokens_cover, tokens_from, tokens_of,
};
use crate::relex::{agrees, lemma_mark_of_kind, lemma_token_moves, may_follow};
use crate::render::{breaks_in, count_breaks, rendered, rendering};
use crate::token::{is_space, Token, TokenKind};

verus! {

/// The canonical gap in front of token `i`.
pub open spec fn gap_of(s: Seq<char>, t: Seq<Token>, r: Seq<Role>, i: int) -> Gap {
    gap_before(
        rendering(s, t, r, i as nat).cursor,
        t[i].kind,
        r[i],
        breaks_in(s, t[i].trivia_start as int, t[i].start as int),
    )
}

/// The canonical gap behind the last token.
pub open spec fn end_gap(s: Seq<char>, t: Seq<Token>, r: Seq<Role>) -> Gap {
    gap_at_end(rendering(s, t, r, t.len()).cursor, breaks_in(s, tail_start(t, 0), s.len() as int))
}

/// The length of the layout of the first `i` tokens.
pub open spec fn reached(s: Seq<char>, t: Seq<Token>, r: Seq<Role>, i: int) -> int {
    rendering(s, t, r, i as nat).out.len() as int
}

/// The text of a gap is line breaks followed by spaces.
pub proof fn lemma_gap_text(g: Gap)
    ensures
        g.text().len() == g.lines + INDENT * g.levels + g.spaces,
        forall|k: int| 0 <= k < g.lines ==> g.text()[k] == '\n',
        forall|k: int| g.lines <= k < g.text().len() ==> g.text()[k] == ' ',
        forall|k: int| 0 <= k < g.text().len() ==> is_space(#[trigger] g.text()[k]),
{
}

/// The layout of the first tokens is the start of the layout of more.
pub proof fn lemma_out_prefix(s: Seq<char>, t: Seq<Token>, r: Seq<Role>, i: nat, j: nat)
    requires
        i <= j,
    ensures
        reached(s, t, r, i as int) <= reached(s, t, r, j as int),
        forall|k: int|
            0 <= k < reached(s, t, r, i as int) ==> #[trigger] rendering(s, t, r, j).out[k]
                == rendering(s, t, r, i).out[k],
    decreases j,
{
    if i < j {
        lemma_out_prefix(s, t, r, i, (j - 1) as nat);
    }
}

/// Where token `i` stands in the layout: behind the layout of the tokens
/// before it stands its gap, and behind the gap its text.
pub proof fn lemma_layout_text(s: Seq<char>, t: Seq<Token>, r: Seq<Role>, i: int)
    requires
        tokens_cover(s, t, 0),
        0 <= i < t.len(),
    ensures
        ({
            let y = rendered(s, t, r).out;
            let p = reached(s, t, r, i);
            let g = gap_of(s, t, r, i).text();
            &&& reached(s, t, r, i + 1) == p + g.len() + (t[i].end - t[i].start)
            &&& reached(s, t, r, i + 1) <= y.len()
            &&& forall|k: int| 0 <= k < g.len() ==> #[trigger] y[p + k] == g[k]
            &&& agrees(s, t[i].start as int, y, p + g.len(), t[i].end - t[i].start)
        }),
{
    let y = rendered(s, t, r).out;
    let p = reached(s, t, r, i);
    let g = gap_of(s, t, r, i).text();
    let next = rendering(s, t, r, (i + 1) as nat).out;
    let all = rendering(s, t, r, t.len()).out;
    lemma_token_fits(s, t[i]);
    lemma_out_prefix(s, t, r, (i + 1) as nat, t.len());
    let w = s.subrange(t[i].start as int, t[i].end as int);
    assert(next == rendering(s, t, r, i as nat).out + g + w);
    assert forall|k: int| 0 <= k < g.len() implies #[trigger] y[p + k] == g[k] by {
        assert(all[p + k] == next[p + k]);
    }
    assert forall|k: int| 0 <= k < t[i].end - t[i].start implies #[trigger] y[p + g.len() + k]
        == s[t[i].start + k] by {
        assert(all[p + g.len() + k] == next[p + g.len() + k]);
        assert(next[p + g.len() + k] == w[k]);
    }
}

/// Behind the layout of all tokens stands the gap at the end, and nothing
/// else.
pub proof fn lemma_layout_end(s: Seq<char>, t: Seq<Token>, r: Seq<Role>)
    ensures
        ({
            let y = rendered(s, t, r).out;
            let p = reached(s, t, r, t.len() as int);
            let g = end_gap(s, t, r).text();
            &&& y.len() == p + g.len()
            &&& forall|k: int| 0 <= k < g.len() ==> #[trigger] y[p + k] == g[k]
        }),
{
}

/// Whether none of the tokens is an error token.
pub open spec fn no_error_token(t: Seq<Token>) -> bool {
    forall|i: int| 0 <= i < t.len() ==> (#[trigger] t[i]).kind != TokenKind::Error
}

/// What stands behind token `i` in the layout may follow it.
pub proof fn lemma_follows(s: Seq<char>, t: Seq<Token>, r: Seq<Role>, i: int)
    requires
        tokens_cover(s, t, 0),
        0 <= i < t.len(),
    ensures
        ({
            let y = rendered(s, t, r).out;
            let q = reached(s, t, r, i + 1);
            q < y.len() ==> may_follow(t[i].kind, y[q])
        }),
{
    let y = rendered(s, t, r).out;
    let q = reached(s, t, r, i + 1);
    assert(rendering(s, t, r, (i + 1) as nat).cursor.prev == Some(t[i].kind));
    if i + 1 < t.len() {
        let g = gap_of(s, t, r, i + 1);
        lemma_layout_text(s, t, r, i + 1);
        lemma_gap_text(g);
        lemma_token_fits(s, t[i + 1]);
        if g.text().len() > 0 {
            assert(y[q + 0] == g.text()[0]);
        } else {
            assert(y[q + 0 + 0] == s[t[i + 1].start + 0]);
            lemma_mark_of_kind(s, t[i + 1].start as int, t[i + 1].kind, t[i + 1].end as int);
        }
    } else {
        let g = end_gap(s, t, r);
        lemma_layout_end(s, t, r);
        lemma_gap_text(g);
        if q < y.len() {
            assert(y[q + 0] == g.text()[0]);
        }
    }
}

/// Whitespace is passed over up to the first code point that is none.
pub proof fn lemma_spaces_skip(y: Seq<char>, p: int, m: int)
    requires
        0 <= p,
        0 <= m,
        p + m <= y.len(),
        forall|k: int| 0 <= k < m ==> is_space(#[trigger] y[p + k]),
        p + m < y.len() ==> !is_space(y[p + m]),
    ensures
        spaces_end(y, p) == p + m,
    decreases m,
{
    if m > 0 {
        assert(is_space(y[p + 0]));
        assert forall|k: int| 0 <= k < m - 1 implies is_space(#[trigger] y[p + 1 + k]) by {
            assert(is_space(y[p + (1 + k)]));
        }
        lemma_spaces_skip(y, p + 1, m - 1);
    }
}

/// Token `i` as it stands in the layout.
pub open spec fn moved(s: Seq<char>, t: Seq<Token>, r: Seq<Role>, i: int) -> Token {
    token_from(
        rendered(s, t, r).out,
        t[i].kind,
        reached(s, t, r, i),
        reached(s, t, r, i) + gap_of(s, t, r, i).text().len(),
        reached(s, t, r, i + 1),
    )
}

/// From the end of the layout of the first `i` tokens on, the lexer reads
/// in the layout the tokens from `i` on, each where the layout put it.
pub proof fn lemma_relex_from(s: Seq<char>, t: Seq<Token>, r: Seq<Role>, i: int)
    requires
        tokens_cover(s, t, 0),
        no_error_token(t),
        0 <= i <= t.len(),
    ensures
        tokens_from(rendered(s, t, r).out, reached(s, t, r, i)) == Seq::new(
            (t.len() - i) as nat,
            |j: int| moved(s, t, r, i + j),
        ),
    decreases t.len() - i,
{
    let y = rendered(s, t, r).out;
    let p = reached(s, t, r, i);
    let want = Seq::new((t.len() - i) as nat, |j: int| moved(s, t, r, i + j));
    if i == t.len() {
        let g = end_gap(s, t, r);
        lemma_layout_end(s, t, r);
        lemma_gap_text(g);
        assert forall|k: int| 0 <= k < g.text().len() implies is_space(#[trigger] y[p + k]) by {
            assert(y[p + k] == g.text()[k]);
        }
        lemma_spaces_skip(y, p, g.text().len() as int);
        assert(tokens_from(y, p) =~= want);
    } else {
        let g = gap_of(s, t, r, i);
        let m = g.text().len() as int;
        let n = t[i].end - t[i].start;
        lemma_layout_text(s, t, r, i);
        lemma_gap_text(g);
        lemma_token_fits(s, t[i]);
        lemma_follows(s, t, r, i);
        assert forall|k: int| 0 <= k < m implies is_space(#[trigger] y[p + k]) by {
            assert(y[p + k] == g.text()[k]);
        }
        assert(y[p + m + 0] == s[t[i].start + 0]);
        lemma_spaces_skip(y, p, m);
        lemma_token_moves(s, t[i].start as int, y, p + m, n, t[i].kind);
        lemma_relex_from(s, t, r, i + 1);
        let rest = tokens_from(y, reached(s, t, r, i + 1));
        assert(tokens_from(y, p) == seq![moved(s, t, r, i)] + rest);
        assert(tokens_from(y, p) =~= want);
    }
}

/// The lexer reads in the layout the tokens of the text, each where the
/// layout put it.
pub proof fn lemma_relex(s: Seq<char>, t: Seq<Token>, r: Seq<Role>)
    requires
        tokens_cover(s, t, 0),
        no_error_token(t),
    ensures
        tokens_of(rendered(s, t, r).out) == Seq::new(t.len(), |j: int| moved(s, t, r, j)),
{
    lemma_relex_from(s, t, r, 0);
    assert(Seq::new((t.len() - 0) as nat, |j: int| moved(s, t, r, 0 + j)) =~= Seq::new(
        t.len(),
        |j: int| moved(s, t, r, j),
    ));
}

/// Line breaks are counted one by one.
pub proof fn lemma_count_newlines(y: Seq<char>, p: int, n: int)
    requires
        0 <= n,
        forall|k: int| 0 <= k < n ==> #[trigger] y[p + k] == '\n',
    ensures
        count_breaks(y, p, p + n) == n,
    decreases n,
{
    if n > 0 {
        assert(y[p + (n - 1)] == '\n');
        lemma_count_newlines(y, p, n - 1);
    }
}

/// Spaces add nothing to the count of line breaks.
pub proof fn lemma_count_blanks(y: Seq<char>, p: int, q: int, n: int)
    requires
        p <= q,
        0 <= n,
        forall|k: int| 0 <= k < n ==> #[trigger] y[q + k] == ' ',
    ensures
        count_breaks(y, p, q + n) == count_breaks(y, p, q),
    decreases n,
{
    if n > 0 {
        assert(y[q + (n - 1)] == ' ');
        lemma_count_blanks(y, p, q, n - 1);
    }
}

/// Where the text of a gap stands, there are as many line breaks as the
/// gap has.
pub proof fn lemma_breaks_of_gap(y: Seq<char>, p: int, g: Gap)
    requires
        g.lines <= 2,
        forall|k: int| 0 <= k < g.text().len() ==> #[trigger] y[p + k] == g.text()[k],
    ensures
        breaks_in(y, p, p + g.text().len()) == g.lines,
{
    lemma_gap_text(g);
    let width = g.text().len() - g.lines;
    assert forall|k: int| 0 <= k < g.lines implies #[trigger] y[p + k] == '\n' by {
        assert(y[p + k] == g.text()[k]);
    }
    assert forall|k: int| 0 <= k < width implies #[trigger] y[p + g.lines + k] == ' ' by {
        assert(y[p + (g.lines + k)] == g.text()[g.lines + k]);
    }
    lemma_count_newlines(y, p, g.lines as int);
    lemma_count_blanks(y, p, p + g.lines, width);
}

/// The canonical gap is the canonical gap of itself: with as many line
/// breaks as it has, the layout chooses it again.
pub proof fn lemma_gap_stable(c: Cursor, kind: TokenKind, role: Role, breaks: usize)
    ensures
        gap_before(c, kind, role, breaks).lines <= 2,
        gap_before(c, kind, role, gap_before(c, kind, role, breaks).lines) == gap_before(
            c,
            kind,
            role,
            breaks,
        ),
        gap_at_end(c, breaks).lines <= 2,
        gap_at_end(c, gap_at_end(c, breaks).lines) == gap_at_end(c, breaks),
{
}

/// The tokens of the layout have the kinds and the texts of the tokens of
/// the text.
pub proof fn lemma_layout_tokens(s: Seq<char>, t: Seq<Token>, r: Seq<Role>, i: int)
    requires
        tokens_cover(s, t, 0),
        no_error_token(t),
        rendered(s, t, r).out.len() <= usize::MAX,
        0 <= i < t.len(),
    ensures
        ({
            let y = rendered(s, t, r).out;
            let u = tokens_of(y)[i];
            &&& tokens_of(y).len() == t.len()
            &&& u.kind == t[i].kind
            &&& u.trivia_start == reached(s, t, r, i)
            &&& u.start == reached(s, t, r, i) + gap_of(s, t, r, i).text().len()
            &&& u.end == reached(s, t, r, i + 1)
            &&& y.subrange(u.start as int, u.end as int) == s.subrange(
                t[i].start as int,
                t[i].end as int,
            )
        }),
{
    let y = rendered(s, t, r).out;
    lemma_relex(s, t, r);
    lemma_layout_text(s, t, r, i);
    lemma_token_fits(s, t[i]);
    let u = tokens_of(y)[i];
    assert(u == moved(s, t, r, i));
    let from = reached(s, t, r, i) + gap_of(s, t, r, i).text().len();
    assert forall|k: int| 0 <= k < t[i].end - t[i].start implies y.subrange(
        u.start as int,
        u.end as int,
    )[k] == s.subrange(t[i].start as int, t[i].end as int)[k] by {
        assert(y[from + k] == s[t[i].start + k]);
    }
    assert(y.subrange(u.start as int, u.end as int) =~= s.subrange(
        t[i].start as int,
        t[i].end as int,
    ));
}

/// Laying out the layout goes as laying out the text went: after each
/// token the same has been written, and the cursor is the same.
pub proof fn lemma_rendering_again(s: Seq<char>, t: Seq<Token>, r: Seq<Role>, i: nat)
    requires
        tokens_cover(s, t, 0),
        no_error_token(t),
        rendered(s, t, r).out.len() <= usize::MAX,
        i <= t.len(),
    ensures
        ({
            let y = rendered(s, t, r).out;
            &&& rendering(y, tokens_of(y), r, i).out == rendering(s, t, r, i).out
            &&& rendering(y, tokens_of(y), r, i).cursor == rendering(s, t, r, i).cursor
        }),
    decreases i,
{
    if i > 0 {
        let y = rendered(s, t, r).out;
        let u = tokens_of(y)[i - 1];
        let before = rendering(s, t, r, (i - 1) as nat);
        lemma_rendering_again(s, t, r, (i - 1) as nat);
        lemma_layout_tokens(s, t, r, i - 1);
        lemma_layout_text(s, t, r, i - 1);
        let g = gap_of(s, t, r, i - 1);
        lemma_gap_stable(
            before.cursor,
            t[i - 1].kind,
            r[i - 1],
            breaks_in(s, t[i - 1].trivia_start as int, t[i - 1].start as int),
        );
        lemma_breaks_of_gap(y, u.trivia_start as int, g);
        assert(breaks_in(y, u.trivia_start as int, u.start as int) == g.lines);
    }
}

/// The layout of a text without error token is its own layout, and has the
/// tokens of the text.
pub proof fn lemma_layout_is_stable(s: Seq<char>, t: Seq<Token>, r: Seq<Role>)
    requires
        tokens_cover(s, t, 0),
        no_error_token(t),
        rendered(s, t, r).out.len() <= usize::MAX,
    ensures
        ({
            let y = rendered(s, t, r).out;
            &&& rendered(y, tokens_of(y), r).out == y
            &&& tokens_of(y).len() == t.len()
            &&& forall|i: int|
                0 <= i < t.len() ==> (#[trigger] tokens_of(y)[i]).kind == t[i].kind && y.subrange(
                    tokens_of(y)[i].start as int,
                    tokens_of(y)[i].end as int,
                ) == s.subrange(t[i].start as int, t[i].end as int)
        }),
{
    let y = rendered(s, t, r).out;
    let u = tokens_of(y);
    lemma_relex(s, t, r);
    lemma_rendering_again(s, t, r, t.len());
    lemma_layout_end(s, t, r);
    assert forall|i: int| 0 <= i < t.len() implies (#[trigger] u[i]).kind == t[i].kind
        && y.subrange(u[i].start as int, u[i].end as int) == s.subrange(
        t[i].start as int,
        t[i].end as int,
    ) by {
        lemma_layout_tokens(s, t, r, i);
    }
    let g = end_gap(s, t, r);
    let p = reached(s, t, r, t.len() as int);
    if t.len() > 0 {
        lemma_layout_tokens(s, t, r, t.len() - 1);
    }
    assert(tail_start(u, 0) == p);
    lemma_gap_stable(
        rendering(s, t, r, t.len()).cursor,
        TokenKind::Comma,
        Role { item: false, inline: false },
        breaks_in(s, tail_start(t, 0), s.len() as int),
    );
    lemma_breaks_of_gap(y, p, g);
}

} // verus!
