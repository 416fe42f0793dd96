//! Rendering: the tokens of a text laid out canonically, and the edits that
//! turn the text into that layout.
//!
//! Rendering changes whitespace only. Each token keeps its text; the gap in
//! front of it becomes the canonical gap. Where a gap of the text differs
//! from the canonical one, one edit replaces it.

use vstd::prelude::*;
use crate::layout::{
    advance, blanks, cursor_after, cursor_start, gap_at_end, gap_before, gap_behind, gap_in_front,
    newlines, Cursor, Gap, Role, INDENT,
};
use crate::lexer::{lemma_token_fits, tail_start, tokens_cover};
use crate::token::{is_space, Token};

verus! {

/// The number of line breaks in `s` from `from` up to `to`.
pub open spec fn count_breaks(s: Seq<char>, from: int, to: int) -> nat
    decreases to - from,
{
    if to <= from {
        0
    } else if s[to - 1] == '\n' {
        count_breaks(s, from, to - 1) + 1
    } else {
        count_breaks(s, from, to - 1)
    }
}

/// The number of line breaks in `s` from `from` up to `to`, counted up to
/// two.
pub open spec fn breaks_in(s: Seq<char>, from: int, to: int) -> usize {
    if count_breaks(s, from, to) >= 2 {
        2
    } else {
        count_breaks(s, from, to) as usize
    }
}

/// Counts the line breaks of a stretch of text, up to two.
pub fn breaks(text: &Vec<char>, from: usize, to: usize) -> (n: usize)
    requires
        from <= to <= text.len(),
    ensures
        n == breaks_in(text@, from as int, to as int),
{
    let mut n: usize = 0;
    let mut j: usize = from;
    while j < to
        invariant
            from <= j <= to <= text.len(),
            n <= j - from,
            n == count_breaks(text@, from as int, j as int),
        decreases to - j,
    {
        if text[j] == '\n' {
            n = n + 1;
        }
        j = j + 1;
    }
    if n >= 2 {
        2
    } else {
        n
    }
}

/// Whether the stretch of `text` from `from` to `to` is the text of `gap`.
pub fn gap_matches(text: &Vec<char>, from: usize, to: usize, gap: Gap) -> (b: bool)
    requires
        from <= to <= text.len(),
    ensures
        b == (text@.subrange(from as int, to as int) == gap.text()),
{
    let ghost have = text@.subrange(from as int, to as int);
    let ghost want = gap.text();
    let mut j: usize = from;
    let mut k: usize = 0;
    while k < gap.lines
        invariant
            from <= j <= to <= text.len(),
            k <= gap.lines,
            j == from + k,
            have == text@.subrange(from as int, to as int),
            want == gap.text(),
            forall|x: int| 0 <= x < k ==> have[x] == '\n',
        decreases gap.lines - k,
    {
        if j >= to || text[j] != '\n' {
            assert(want[k as int] == '\n');
            assert(want.len() > k);
            if j < to {
                assert(have[k as int] == text@[j as int]);
            }
            assert(have != want);
            return false;
        }
        j = j + 1;
        k = k + 1;
    }
    let mut l: usize = 0;
    while l < gap.levels
        invariant
            from <= j <= to <= text.len(),
            l <= gap.levels,
            j == from + gap.lines + INDENT * l,
            have == text@.subrange(from as int, to as int),
            want == gap.text(),
            forall|x: int| 0 <= x < gap.lines ==> have[x] == '\n',
            forall|x: int| gap.lines <= x < j - from ==> have[x] == ' ',
        decreases gap.levels - l,
    {
        if j >= to || text[j] != ' ' {
            assert(want[j - from] == ' ');
            assert(want.len() > j - from);
            if j < to {
                assert(have[j - from] == text@[j as int]);
            }
            assert(have != want);
            return false;
        }
        j = j + 1;
        if j >= to || text[j] != ' ' {
            assert(want[j - from] == ' ');
            assert(want.len() > j - from);
            if j < to {
                assert(have[j - from] == text@[j as int]);
            }
            assert(have != want);
            return false;
        }
        j = j + 1;
        l = l + 1;
    }
    let mut m: usize = 0;
    while m < gap.spaces
        invariant
            from <= j <= to <= text.len(),
            m <= gap.spaces,
            j == from + gap.lines + INDENT * gap.levels + m,
            have == text@.subrange(from as int, to as int),
            want == gap.text(),
            forall|x: int| 0 <= x < gap.lines ==> have[x] == '\n',
            forall|x: int| gap.lines <= x < j - from ==> have[x] == ' ',
        decreases gap.spaces - m,
    {
        if j >= to || text[j] != ' ' {
            assert(want[j - from] == ' ');
            assert(want.len() > j - from);
            if j < to {
                assert(have[j - from] == text@[j as int]);
            }
            assert(have != want);
            return false;
        }
        j = j + 1;
        m = m + 1;
    }
    if j == to {
        assert(have =~= want);
        true
    } else {
        assert(have.len() != want.len());
        false
    }
}

/// Appends the text of `gap` to `out`.
pub fn push_gap(out: &mut Vec<char>, gap: Gap)
    ensures
        final(out)@ == old(out)@ + gap.text(),
{
    let ghost base = out@;
    let mut k: usize = 0;
    while k < gap.lines
        invariant
            k <= gap.lines,
            out@ == base + newlines(k as nat),
        decreases gap.lines - k,
    {
        out.push('\n');
        k = k + 1;
        assert(out@ =~= base + newlines(k as nat));
    }
    let mut l: usize = 0;
    while l < gap.levels
        invariant
            l <= gap.levels,
            out@ == base + newlines(gap.lines as nat) + blanks((INDENT * l) as nat),
        decreases gap.levels - l,
    {
        out.push(' ');
        out.push(' ');
        l = l + 1;
        assert(out@ =~= base + newlines(gap.lines as nat) + blanks((INDENT * l) as nat));
    }
    let mut m: usize = 0;
    while m < gap.spaces
        invariant
            m <= gap.spaces,
            out@ == base + newlines(gap.lines as nat) + blanks((INDENT * gap.levels + m) as nat),
        decreases gap.spaces - m,
    {
        out.push(' ');
        m = m + 1;
        assert(out@ =~= base + newlines(gap.lines as nat) + blanks(
            (INDENT * gap.levels + m) as nat,
        ));
    }
    assert(out@ =~= base + gap.text());
}

/// Appends the stretch of `text` from `from` to `to` to `out`.
pub fn push_range(out: &mut Vec<char>, text: &Vec<char>, from: usize, to: usize)
    requires
        from <= to <= text.len(),
    ensures
        final(out)@ == old(out)@ + text@.subrange(from as int, to as int),
{
    let ghost base = out@;
    let mut j: usize = from;
    while j < to
        invariant
            from <= j <= to <= text.len(),
            out@ == base + text@.subrange(from as int, j as int),
        decreases to - j,
    {
        out.push(text[j]);
        j = j + 1;
        assert(out@ =~= base + text@.subrange(from as int, j as int));
    }
}

/// One change to a text: the stretch from `start` to `end`, which holds
/// only whitespace, is replaced by the text of `gap`.
#[derive(Clone, Copy, Debug, PartialEq, Eq, Structural)]
pub struct Edit {
    pub start: usize,
    pub end: usize,
    pub gap: Gap,
}

/// A text laid out, with the edits that lead to it.
pub struct Layout {
    pub text: Vec<char>,
    pub edits: Vec<Edit>,
}

/// The mathematical value of a layout in the making: the text written so
/// far, the edits found so far, and the cursor.
pub struct Rendering {
    pub out: Seq<char>,
    pub edits: Seq<Edit>,
    pub cursor: Cursor,
}

/// The edits with one more, for the gap from `start` to `end`, unless the
/// text already holds the text of `gap` there.
pub open spec fn with_gap(s: Seq<char>, edits: Seq<Edit>, start: int, end: int, gap: Gap) -> Seq<
    Edit,
> {
    if s.subrange(start, end) == gap.text() {
        edits
    } else {
        edits.push(Edit { start: start as usize, end: end as usize, gap })
    }
}

/// The layout of the first `i` tokens.
pub open spec fn rendering(s: Seq<char>, tokens: Seq<Token>, roles: Seq<Role>, i: nat) -> Rendering
    decreases i,
{
    if i == 0 {
        Rendering { out: Seq::empty(), edits: Seq::empty(), cursor: cursor_start() }
    } else {
        let r = rendering(s, tokens, roles, (i - 1) as nat);
        let t = tokens[i - 1];
        let gap = gap_before(
            r.cursor,
            t.kind,
            roles[i - 1],
            breaks_in(s, t.trivia_start as int, t.start as int),
        );
        Rendering {
            out: r.out + gap.text() + s.subrange(t.start as int, t.end as int),
            edits: with_gap(s, r.edits, t.trivia_start as int, t.start as int, gap),
            cursor: cursor_after(r.cursor, t.kind, roles[i - 1]),
        }
    }
}

/// The layout of the whole text: all its tokens, and the gap behind the
/// last.
pub open spec fn rendered(s: Seq<char>, tokens: Seq<Token>, roles: Seq<Role>) -> Rendering {
    let r = rendering(s, tokens, roles, tokens.len());
    let from = tail_start(tokens, 0);
    let gap = gap_at_end(r.cursor, breaks_in(s, from, s.len() as int));
    Rendering {
        out: r.out + gap.text(),
        edits: with_gap(s, r.edits, from, s.len() as int, gap),
        cursor: r.cursor,
    }
}

/// The offset behind the first `k` of `edits`.
pub open spec fn cut(edits: Seq<Edit>, k: int) -> int {
    if k <= 0 {
        0
    } else {
        edits[k - 1].end as int
    }
}

/// Whether `edits` lie inside a text of length `n`, in order and without
/// overlap.
pub open spec fn edits_fit(edits: Seq<Edit>, n: int) -> bool {
    &&& forall|k: int| 0 <= k < edits.len() ==> (#[trigger] edits[k]).start <= edits[k].end <= n
    &&& forall|i: int, j: int|
        0 <= i && j == i + 1 && j < edits.len() ==> (#[trigger] edits[i]).end <= (
        #[trigger] edits[j]).start
}

/// The text that the first `k` of `edits` make of `s` up to the end of the
/// last of them.
pub open spec fn applied(s: Seq<char>, edits: Seq<Edit>, k: int) -> Seq<char>
    decreases k,
{
    if k <= 0 {
        Seq::empty()
    } else {
        applied(s, edits, k - 1) + s.subrange(cut(edits, k - 1), edits[k - 1].start as int)
            + edits[k - 1].gap.text()
    }
}

/// The text that `edits` make of `s`.
pub open spec fn patched(s: Seq<char>, edits: Seq<Edit>) -> Seq<char> {
    applied(s, edits, edits.len() as int) + s.subrange(
        cut(edits, edits.len() as int),
        s.len() as int,
    )
}

/// One more edit at the end does not change what the edits before it do.
pub proof fn lemma_applied_push(s: Seq<char>, edits: Seq<Edit>, e: Edit, k: int)
    requires
        k <= edits.len(),
    ensures
        applied(s, edits.push(e), k) == applied(s, edits, k),
        cut(edits.push(e), k) == cut(edits, k),
    decreases k,
{
    if k > 0 {
        lemma_applied_push(s, edits, e, k - 1);
        assert(edits.push(e)[k - 1] == edits[k - 1]);
    }
}

/// What one more gap does to a layout that the edits account for: if `out`
/// is what `edits` make of `s` up to `pos`, then with the gap from `pos` to
/// `start` and the text from `start` to `end` it is what the edits with
/// that gap make of `s` up to `end`.
pub proof fn lemma_gap_applies(
    s: Seq<char>,
    edits: Seq<Edit>,
    out: Seq<char>,
    pos: int,
    start: int,
    end: int,
    gap: Gap,
)
    requires
        edits_fit(edits, pos),
        0 <= cut(edits, edits.len() as int) <= pos <= start <= end <= s.len() <= usize::MAX,
        out == applied(s, edits, edits.len() as int) + s.subrange(
            cut(edits, edits.len() as int),
            pos,
        ),
    ensures
        ({
            let next = with_gap(s, edits, pos, start, gap);
            &&& edits_fit(next, end)
            &&& cut(next, next.len() as int) <= end
            &&& out + gap.text() + s.subrange(start, end) == applied(s, next, next.len() as int)
                + s.subrange(cut(next, next.len() as int), end)
        }),
{
    let next = with_gap(s, edits, pos, start, gap);
    let c = cut(edits, edits.len() as int);
    if s.subrange(pos, start) == gap.text() {
        assert(s.subrange(c, pos) + s.subrange(pos, start) + s.subrange(start, end) =~= s.subrange(
            c,
            end,
        ));
        assert(out + gap.text() + s.subrange(start, end) =~= applied(s, edits, edits.len() as int)
            + (s.subrange(c, pos) + s.subrange(pos, start) + s.subrange(start, end)));
    } else {
        let e = Edit { start: pos as usize, end: start as usize, gap };
        lemma_applied_push(s, edits, e, edits.len() as int);
        assert(next[next.len() - 1] == e);
        assert(applied(s, next, next.len() as int) == applied(s, edits, edits.len() as int)
            + s.subrange(c, pos) + gap.text());
        assert forall|k: int| 0 <= k < next.len() implies (#[trigger] next[k]).start <= next[k].end
            <= end by {
            if k < edits.len() {
                assert(next[k] == edits[k]);
            }
        }
        assert forall|i: int, j: int| 0 <= i && j == i + 1 && j < next.len() implies (
        #[trigger] next[i]).end <= (#[trigger] next[j]).start by {
            assert(next[i] == edits[i]);
            if j < edits.len() {
                assert(next[j] == edits[j]);
            }
        }
    }
}

/// The offset behind the first `i` of `tokens`.
pub open spec fn reach(tokens: Seq<Token>, i: int) -> int {
    if i <= 0 {
        0
    } else {
        tokens[i - 1].end as int
    }
}

/// The edits of a layout in the making account for it: they make of the
/// text, up to the last token laid out, what was written.
pub proof fn lemma_rendering_applies(s: Seq<char>, tokens: Seq<Token>, roles: Seq<Role>, i: nat)
    requires
        tokens_cover(s, tokens, 0),
        s.len() <= usize::MAX,
        i <= tokens.len(),
    ensures
        ({
            let r = rendering(s, tokens, roles, i);
            let c = cut(r.edits, r.edits.len() as int);
            &&& edits_fit(r.edits, reach(tokens, i as int))
            &&& 0 <= c <= reach(tokens, i as int) <= s.len()
            &&& r.out == applied(s, r.edits, r.edits.len() as int) + s.subrange(
                c,
                reach(tokens, i as int),
            )
        }),
    decreases i,
{
    if i == 0 {
        assert(s.subrange(0, 0) =~= Seq::<char>::empty());
    } else {
        lemma_rendering_applies(s, tokens, roles, (i - 1) as nat);
        let r = rendering(s, tokens, roles, (i - 1) as nat);
        let t = tokens[i - 1];
        lemma_token_fits(s, t);
        if i > 1 {
            lemma_token_fits(s, tokens[i - 2]);
            assert(t.trivia_start == tokens[i - 2].end);
        }
        let gap = gap_before(
            r.cursor,
            t.kind,
            roles[i - 1],
            breaks_in(s, t.trivia_start as int, t.start as int),
        );
        lemma_gap_applies(
            s,
            r.edits,
            r.out,
            t.trivia_start as int,
            t.start as int,
            t.end as int,
            gap,
        );
    }
}

/// The edits of a layout make the layout of the text.
pub proof fn lemma_rendered_applies(s: Seq<char>, tokens: Seq<Token>, roles: Seq<Role>)
    requires
        tokens_cover(s, tokens, 0),
        s.len() <= usize::MAX,
    ensures
        edits_fit(rendered(s, tokens, roles).edits, s.len() as int),
        patched(s, rendered(s, tokens, roles).edits) == rendered(s, tokens, roles).out,
{
    lemma_rendering_applies(s, tokens, roles, tokens.len());
    let r = rendering(s, tokens, roles, tokens.len());
    let from = tail_start(tokens, 0);
    assert(from == reach(tokens, tokens.len() as int));
    let gap = gap_at_end(r.cursor, breaks_in(s, from, s.len() as int));
    lemma_gap_applies(s, r.edits, r.out, from, s.len() as int, s.len() as int, gap);
    assert(r.out + gap.text() + s.subrange(s.len() as int, s.len() as int) =~= r.out + gap.text());
}

/// Whether each of `edits` replaces a stretch of whitespace of `s` by
/// other whitespace.
pub open spec fn edits_are_needed(s: Seq<char>, edits: Seq<Edit>) -> bool {
    forall|k: int|
        0 <= k < edits.len() ==> {
            &&& s.subrange((#[trigger] edits[k]).start as int, edits[k].end as int)
                != edits[k].gap.text()
            &&& forall|j: int| edits[k].start <= j < edits[k].end ==> is_space(#[trigger] s[j])
        }
}

/// The edits of a layout in the making touch nothing but whitespace, and
/// each of them changes something.
pub proof fn lemma_rendering_edits_needed(
    s: Seq<char>,
    tokens: Seq<Token>,
    roles: Seq<Role>,
    i: nat,
)
    requires
        tokens_cover(s, tokens, 0),
        s.len() <= usize::MAX,
        i <= tokens.len(),
    ensures
        edits_are_needed(s, rendering(s, tokens, roles, i).edits),
    decreases i,
{
    if i > 0 {
        lemma_rendering_edits_needed(s, tokens, roles, (i - 1) as nat);
        let before = rendering(s, tokens, roles, (i - 1) as nat).edits;
        let after = rendering(s, tokens, roles, i).edits;
        lemma_token_fits(s, tokens[i - 1]);
        assert forall|k: int| 0 <= k < after.len() implies {
            &&& s.subrange((#[trigger] after[k]).start as int, after[k].end as int)
                != after[k].gap.text()
            &&& forall|j: int| after[k].start <= j < after[k].end ==> is_space(#[trigger] s[j])
        } by {
            if k < before.len() {
                assert(after[k] == before[k]);
            }
        }
    }
}

/// The edits of a layout touch nothing but whitespace, and each of them
/// changes something.
pub proof fn lemma_rendered_edits_needed(s: Seq<char>, tokens: Seq<Token>, roles: Seq<Role>)
    requires
        tokens_cover(s, tokens, 0),
        s.len() <= usize::MAX,
    ensures
        edits_are_needed(s, rendered(s, tokens, roles).edits),
{
    lemma_rendering_edits_needed(s, tokens, roles, tokens.len());
    let before = rendering(s, tokens, roles, tokens.len()).edits;
    let after = rendered(s, tokens, roles).edits;
    assert forall|k: int| 0 <= k < after.len() implies {
        &&& s.subrange((#[trigger] after[k]).start as int, after[k].end as int)
            != after[k].gap.text()
        &&& forall|j: int| after[k].start <= j < after[k].end ==> is_space(#[trigger] s[j])
    } by {
        if k < before.len() {
            assert(after[k] == before[k]);
        }
    }
}

/// Lays out the tokens of `text` canonically and lists the edits that turn
/// `text` into the layout.
pub fn render(text: &Vec<char>, tokens: &Vec<Token>, roles: &Vec<Role>) -> (l: Layout)
    requires
        tokens_cover(text@, tokens@, 0),
        roles.len() == tokens.len(),
    ensures
        l.text@ == rendered(text@, tokens@, roles@).out,
        l.edits@ == rendered(text@, tokens@, roles@).edits,
{
    let mut out: Vec<char> = Vec::new();
    let mut edits: Vec<Edit> = Vec::new();
    let mut cursor = Cursor { depth: 0, inline: false, prev: None };
    let mut pos: usize = 0;
    let mut i: usize = 0;
    while i < tokens.len()
        invariant
            i <= tokens.len(),
            roles.len() == tokens.len(),
            tokens_cover(text@, tokens@, 0),
            pos == reach(tokens@, i as int),
            pos <= text.len(),
            out@ == rendering(text@, tokens@, roles@, i as nat).out,
            edits@ == rendering(text@, tokens@, roles@, i as nat).edits,
            cursor == rendering(text@, tokens@, roles@, i as nat).cursor,
        decreases tokens.len() - i,
    {
        let t = tokens[i];
        proof {
            lemma_token_fits(text@, t);
            if i > 0 {
                assert(t.trivia_start == tokens@[i - 1].end);
            }
        }
        let gap = gap_in_front(cursor, t.kind, roles[i], breaks(text, t.trivia_start, t.start));
        if !gap_matches(text, t.trivia_start, t.start, gap) {
            edits.push(Edit { start: t.trivia_start, end: t.start, gap });
        }
        push_gap(&mut out, gap);
        push_range(&mut out, text, t.start, t.end);
        cursor = advance(cursor, t.kind, roles[i]);
        pos = t.end;
        i = i + 1;
    }
    assert(pos == tail_start(tokens@, 0));
    let gap = gap_behind(cursor, breaks(text, pos, text.len()));
    if !gap_matches(text, pos, text.len(), gap) {
        edits.push(Edit { start: pos, end: text.len(), gap });
    }
    push_gap(&mut out, gap);
    Layout { text: out, edits }
}

/// Applies `edits` to `text`. Gives `None` where the edits do not lie
/// inside the text in order and without overlap.
pub fn apply_edits(text: &Vec<char>, edits: &Vec<Edit>) -> (r: Option<Vec<char>>)
    ensures
        r is Some <==> edits_fit(edits@, text.len() as int),
        r matches Some(out) ==> out@ == patched(text@, edits@),
{
    let mut out: Vec<char> = Vec::new();
    let mut pos: usize = 0;
    let mut k: usize = 0;
    while k < edits.len()
        invariant
            k <= edits.len(),
            pos == cut(edits@, k as int),
            pos <= text.len(),
            edits_fit(edits@.take(k as int), text.len() as int),
            out@ == applied(text@, edits@, k as int),
        decreases edits.len() - k,
    {
        let e = edits[k];
        if e.start < pos || e.end < e.start || e.end > text.len() {
            proof {
                if edits_fit(edits@, text.len() as int) {
                    if k > 0 {
                        assert(edits@[k - 1].end <= edits@[k as int].start);
                    }
                    assert(edits@[k as int].start <= edits@[k as int].end <= text.len());
                }
            }
            return None;
        }
        push_range(&mut out, text, pos, e.start);
        push_gap(&mut out, e.gap);
        proof {
            let before = edits@.take(k as int);
            let after = edits@.take(k + 1);
            assert forall|x: int| 0 <= x < after.len() implies (#[trigger] after[x]).start
                <= after[x].end <= text.len() by {
                if x < k {
                    assert(after[x] == before[x]);
                }
            }
            assert forall|x: int, y: int| 0 <= x && y == x + 1 && y < after.len() implies (
            #[trigger] after[x]).end <= (#[trigger] after[y]).start by {
                assert(after[x] == before[x]);
                if y < k {
                    assert(after[y] == before[y]);
                }
            }
        }
        pos = e.end;
        k = k + 1;
    }
    assert(edits@.take(k as int) =~= edits@);
    push_range(&mut out, text, pos, text.len());
    Some(out)
}

} // verus!
