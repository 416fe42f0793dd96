//! The canonical layout: which whitespace stands in front of each token.
//!
//! A section with neither nested sections nor comments is laid out on one
//! line, `name { a = 1, b = 2 }`. Any other section is laid out as a block:
//! each of its items on a line of its own, one level deeper than the
//! section. Sections at the top level start on a line of their own. Where
//! the layout breaks the line it keeps one blank line if the text had one
//! or more there. A comment makes its section a block and stays on the
//! line on which it was written.

use vstd::prelude::*;
use crate::document::{Document, DocumentView, Section};
use crate::token::TokenKind;

verus! {

/// The number of spaces per level of nesting.
pub const INDENT: usize = 2;

/// What the document says of one token: whether an item (a section or an
/// attribute) starts at it, and whether it is the opening brace of a
/// section that is laid out on one line.
#[derive(Clone, Copy, Debug, PartialEq, Eq, Structural)]
pub struct Role {
    pub item: bool,
    pub inline: bool,
}

/// Whether one of the first `m` sections has section `k` as its parent.
pub open spec fn has_child_below(sections: Seq<Section>, k: int, m: int) -> bool {
    exists|c: int| 0 <= c < m && c < sections.len() && (#[trigger] sections[c]).parent == Some(
        k as usize,
    )
}

/// Whether section `k` is laid out on one line: it has no comment of its
/// own and no nested section.
pub open spec fn is_inline(sections: Seq<Section>, k: int) -> bool {
    !sections[k].has_comment && !has_child_below(sections, k, sections.len() as int)
}

/// Whether one of the first `m` sections starts at token `i`.
pub open spec fn section_starts(sections: Seq<Section>, i: int, m: int) -> bool {
    exists|k: int| 0 <= k < m && k < sections.len() && (#[trigger] sections[k]).kind == i
}

/// Whether one of the first `m` sections opens at token `i` and is laid
/// out on one line.
pub open spec fn inline_opens(sections: Seq<Section>, i: int, m: int) -> bool {
    exists|k: int|
        0 <= k < m && k < sections.len() && (#[trigger] sections[k]).open == i && is_inline(
            sections,
            k,
        )
}

/// Whether one of the first `m` attributes starts at token `i`.
pub open spec fn attribute_starts(doc: DocumentView, i: int, m: int) -> bool {
    exists|a: int| 0 <= a < m && a < doc.attributes.len() && (#[trigger] doc.attributes[a]).key == i
}

/// The role of token `i` in `doc`.
pub open spec fn role_of(doc: DocumentView, i: int) -> Role {
    Role {
        item: section_starts(doc.sections, i, doc.sections.len() as int) || attribute_starts(
            doc,
            i,
            doc.attributes.len() as int,
        ),
        inline: inline_opens(doc.sections, i, doc.sections.len() as int),
    }
}

/// The roles of the `n` tokens of `doc`.
pub open spec fn roles_of(doc: DocumentView, n: nat) -> Seq<Role> {
    Seq::new(n, |i: int| role_of(doc, i))
}

/// For each section, whether it has a nested section.
fn child_marks(doc: &Document) -> (marks: Vec<bool>)
    requires
        forall|k: int|
            0 <= k < doc.sections.len() ==> ((#[trigger] doc.sections[k]).parent matches Some(p)
                ==> p < doc.sections.len()),
    ensures
        marks.len() == doc.sections.len(),
        forall|k: int|
            0 <= k < marks.len() ==> marks[k] == has_child_below(
                doc.sections@,
                k,
                doc.sections.len() as int,
            ),
{
    let count = doc.sections.len();
    let mut marks: Vec<bool> = Vec::new();
    let mut k: usize = 0;
    while k < count
        invariant
            k <= count,
            marks.len() == k,
            forall|j: int| 0 <= j < k ==> !marks[j],
        decreases count - k,
    {
        marks.push(false);
        k = k + 1;
    }
    let mut c: usize = 0;
    while c < count
        invariant
            c <= count,
            count == doc.sections.len(),
            marks.len() == count,
            forall|k: int|
                0 <= k < doc.sections.len() ==> ((#[trigger] doc.sections[k]).parent matches Some(p)
                    ==> p < doc.sections.len()),
            forall|k: int|
                0 <= k < count ==> marks[k] == has_child_below(doc.sections@, k, c as int),
        decreases count - c,
    {
        match doc.sections[c].parent {
            Some(p) => {
                marks.set(p, true);
            },
            None => {},
        }
        proof {
            let s = doc.sections@;
            assert forall|k: int| 0 <= k < count implies marks[k] == has_child_below(
                s,
                k,
                c + 1,
            ) by {
                if has_child_below(s, k, c as int) {
                    let w = choose|w: int|
                        0 <= w < c && w < s.len() && (#[trigger] s[w]).parent == Some(k as usize);
                    assert(0 <= w < c + 1 && s[w].parent == Some(k as usize));
                } else if has_child_below(s, k, c + 1) {
                    let w = choose|w: int|
                        0 <= w < c + 1 && w < s.len() && (#[trigger] s[w]).parent == Some(
                            k as usize,
                        );
                    assert(w == c);
                } else {
                    assert(s[c as int].parent != Some(k as usize));
                }
            }
        }
        c = c + 1;
    }
    marks
}

/// Computes the role of each of the `n` tokens of `doc`.
pub fn roles(doc: &Document, n: usize) -> (table: Vec<Role>)
    requires
        doc@.well_formed(n as int),
    ensures
        table@ == roles_of(doc@, n as nat),
{
    let ghost s = doc.sections@;
    proof {
        assert forall|k: int| 0 <= k < doc.sections.len() implies ((
        #[trigger] doc.sections[k]).parent matches Some(p) ==> p < doc.sections.len()) by {
            assert(doc@.section_ok(k, n as int));
        }
    }
    let marks = child_marks(doc);
    let mut table: Vec<Role> = Vec::new();
    let mut i: usize = 0;
    while i < n
        invariant
            i <= n,
            table.len() == i,
            forall|j: int| 0 <= j < i ==> table[j] == (Role { item: false, inline: false }),
        decreases n - i,
    {
        table.push(Role { item: false, inline: false });
        i = i + 1;
    }
    let count = doc.sections.len();
    let mut k: usize = 0;
    while k < count
        invariant
            k <= count,
            count == doc.sections.len(),
            s == doc.sections@,
            doc@.well_formed(n as int),
            table.len() == n,
            marks.len() == count,
            forall|j: int| 0 <= j < count ==> marks[j] == has_child_below(s, j, count as int),
            forall|j: int|
                0 <= j < n ==> (#[trigger] table[j]).item == section_starts(s, j, k as int)
                    && table[j].inline == inline_opens(s, j, k as int),
        decreases count - k,
    {
        let section = doc.sections[k];
        proof {
            assert(doc@.section_ok(k as int, n as int));
        }
        let at_kind = table[section.kind];
        table.set(section.kind, Role { item: true, inline: at_kind.inline });
        let lone = !section.has_comment && !marks[k];
        if lone {
            let at_open = table[section.open];
            table.set(section.open, Role { item: at_open.item, inline: true });
        }
        proof {
            assert(lone == is_inline(s, k as int));
            assert forall|j: int| 0 <= j < n implies (#[trigger] table[j]).item == section_starts(
                s,
                j,
                k + 1,
            ) && table[j].inline == inline_opens(s, j, k + 1) by {
                if section_starts(s, j, k as int) {
                    let w = choose|w: int| 0 <= w < k && w < s.len() && (#[trigger] s[w]).kind == j;
                    assert(0 <= w < k + 1 && s[w].kind == j);
                } else if section_starts(s, j, k + 1) {
                    let w = choose|w: int|
                        0 <= w < k + 1 && w < s.len() && (#[trigger] s[w]).kind == j;
                    assert(w == k);
                } else {
                    assert(s[k as int].kind != j);
                }
                if inline_opens(s, j, k as int) {
                    let w = choose|w: int|
                        0 <= w < k && w < s.len() && (#[trigger] s[w]).open == j && is_inline(
                            s,
                            w,
                        );
                    assert(0 <= w < k + 1 && s[w].open == j && is_inline(s, w));
                } else if inline_opens(s, j, k + 1) {
                    let w = choose|w: int|
                        0 <= w < k + 1 && w < s.len() && (#[trigger] s[w]).open == j && is_inline(
                            s,
                            w,
                        );
                    assert(w == k);
                } else {
                    assert(!(s[k as int].open == j && is_inline(s, k as int)));
                }
            }
        }
        k = k + 1;
    }
    let total = doc.attributes.len();
    let mut a: usize = 0;
    while a < total
        invariant
            a <= total,
            total == doc.attributes.len(),
            s == doc.sections@,
            doc@.well_formed(n as int),
            table.len() == n,
            forall|j: int|
                0 <= j < n ==> (#[trigger] table[j]).item == (section_starts(
                    s,
                    j,
                    s.len() as int,
                ) || attribute_starts(doc@, j, a as int)) && table[j].inline == inline_opens(
                    s,
                    j,
                    s.len() as int,
                ),
        decreases total - a,
    {
        let key = doc.attributes[a].key;
        proof {
            assert(doc@.attribute_ok(a as int, n as int));
        }
        let at_key = table[key];
        table.set(key, Role { item: true, inline: at_key.inline });
        proof {
            let d = doc@;
            assert forall|j: int| 0 <= j < n implies (#[trigger] table[j]).item == (section_starts(
                s,
                j,
                s.len() as int,
            ) || attribute_starts(d, j, a + 1)) by {
                if attribute_starts(d, j, a as int) {
                    let w = choose|w: int|
                        0 <= w < a && w < d.attributes.len() && (#[trigger] d.attributes[w]).key
                            == j;
                    assert(0 <= w < a + 1 && d.attributes[w].key == j);
                } else if attribute_starts(d, j, a + 1) {
                    let w = choose|w: int|
                        0 <= w < a + 1 && w < d.attributes.len() && (
                        #[trigger] d.attributes[w]).key == j;
                    assert(w == a);
                } else {
                    assert(d.attributes[a as int].key != j);
                }
            }
        }
        a = a + 1;
    }
    assert(table@ =~= roles_of(doc@, n as nat));
    table
}

/// The whitespace in front of a token: `lines` line breaks, then `levels`
/// levels of indentation, then `spaces` single spaces.
#[derive(Clone, Copy, Debug, PartialEq, Eq, Structural)]
pub struct Gap {
    pub lines: usize,
    pub levels: usize,
    pub spaces: usize,
}

/// `n` line breaks.
pub open spec fn newlines(n: nat) -> Seq<char> {
    Seq::new(n, |i: int| '\n')
}

/// `n` spaces.
pub open spec fn blanks(n: nat) -> Seq<char> {
    Seq::new(n, |i: int| ' ')
}

impl Gap {
    /// The text of the gap.
    pub open spec fn text(self) -> Seq<char> {
        newlines(self.lines as nat) + blanks((INDENT * self.levels + self.spaces) as nat)
    }
}

/// Where the layout stands between two tokens: how many sections are open,
/// whether the innermost of them is laid out on one line, and the kind of
/// the token before.
#[derive(Clone, Copy, Debug, PartialEq, Eq, Structural)]
pub struct Cursor {
    pub depth: usize,
    pub inline: bool,
    pub prev: Option<TokenKind>,
}

/// The cursor in front of the first token.
pub open spec fn cursor_start() -> Cursor {
    Cursor { depth: 0, inline: false, prev: None }
}

/// Whether the line breaks between a token of kind `prev` and one of kind
/// `kind` and role `role`; `breaks` is the number of line breaks that the
/// text has there, counted up to two. The line always breaks behind a line
/// comment. A comment stays on the line on which it stands. Outside
/// sections that are laid out on one line, the line breaks in front of an
/// item and inside each of the two braces. What else follows a block
/// comment stays on the line on which it stands.
pub open spec fn breaks_line(
    c: Cursor,
    prev: TokenKind,
    kind: TokenKind,
    role: Role,
    breaks: usize,
) -> bool {
    if prev == TokenKind::LineComment {
        true
    } else if kind.is_comment() {
        breaks >= 1
    } else if !c.inline && (kind == TokenKind::RightBrace || prev == TokenKind::LeftBrace
        || role.item) {
        true
    } else {
        prev == TokenKind::BlockComment && breaks >= 1
    }
}

/// Whether nothing stands between a token of kind `prev` and one of kind
/// `kind` on the same line.
pub open spec fn glued(prev: TokenKind, kind: TokenKind) -> bool {
    ||| kind == TokenKind::Comma
    ||| prev == TokenKind::LeftBracket
    ||| kind == TokenKind::RightBracket
    ||| prev == TokenKind::LeftBrace && kind == TokenKind::RightBrace
}

/// The canonical gap in front of a token of kind `kind` and role `role`.
pub open spec fn gap_before(c: Cursor, kind: TokenKind, role: Role, breaks: usize) -> Gap {
    match c.prev {
        None => Gap { lines: 0, levels: 0, spaces: 0 },
        Some(prev) => if breaks_line(c, prev, kind, role, breaks) {
            Gap {
                lines: if breaks >= 2 {
                    2
                } else {
                    1
                },
                levels: if kind == TokenKind::RightBrace && c.depth > 0 {
                    (c.depth - 1) as usize
                } else {
                    c.depth
                },
                spaces: 0,
            }
        } else if glued(prev, kind) {
            Gap { lines: 0, levels: 0, spaces: 0 }
        } else {
            Gap { lines: 0, levels: 0, spaces: 1 }
        },
    }
}

/// The canonical gap behind the last token: one line break if the text has
/// tokens and ends in whitespace with a line break, nothing otherwise.
pub open spec fn gap_at_end(c: Cursor, breaks: usize) -> Gap {
    Gap {
        lines: if c.prev is Some && breaks >= 1 {
            1
        } else {
            0
        },
        levels: 0,
        spaces: 0,
    }
}

/// The cursor behind a token of kind `kind` and role `role`.
pub open spec fn cursor_after(c: Cursor, kind: TokenKind, role: Role) -> Cursor {
    Cursor {
        depth: if kind == TokenKind::LeftBrace && c.depth < usize::MAX {
            (c.depth + 1) as usize
        } else if kind == TokenKind::RightBrace && c.depth > 0 {
            (c.depth - 1) as usize
        } else {
            c.depth
        },
        inline: if kind == TokenKind::LeftBrace {
            role.inline
        } else if kind == TokenKind::RightBrace {
            false
        } else {
            c.inline
        },
        prev: Some(kind),
    }
}

/// Computes the canonical gap in front of a token.
pub fn gap_in_front(c: Cursor, kind: TokenKind, role: Role, breaks: usize) -> (g: Gap)
    ensures
        g == gap_before(c, kind, role, breaks),
{
    match c.prev {
        None => Gap { lines: 0, levels: 0, spaces: 0 },
        Some(prev) => {
            let broken = if prev == TokenKind::LineComment {
                true
            } else if kind.comment() {
                breaks >= 1
            } else if !c.inline && (kind == TokenKind::RightBrace || prev == TokenKind::LeftBrace
                || role.item) {
                true
            } else {
                prev == TokenKind::BlockComment && breaks >= 1
            };
            let tight = kind == TokenKind::Comma || prev == TokenKind::LeftBracket || kind
                == TokenKind::RightBracket || (prev == TokenKind::LeftBrace && kind
                == TokenKind::RightBrace);
            if broken {
                Gap {
                    lines: if breaks >= 2 {
                        2
                    } else {
                        1
                    },
                    levels: if kind == TokenKind::RightBrace && c.depth > 0 {
                        c.depth - 1
                    } else {
                        c.depth
                    },
                    spaces: 0,
                }
            } else if tight {
                Gap { lines: 0, levels: 0, spaces: 0 }
            } else {
                Gap { lines: 0, levels: 0, spaces: 1 }
            }
        },
    }
}

/// Computes the canonical gap behind the last token.
pub fn gap_behind(c: Cursor, breaks: usize) -> (g: Gap)
    ensures
        g == gap_at_end(c, breaks),
{
    Gap {
        lines: if c.prev.is_some() && breaks >= 1 {
            1
        } else {
            0
        },
        levels: 0,
        spaces: 0,
    }
}

/// Moves the cursor over a token.
pub fn advance(c: Cursor, kind: TokenKind, role: Role) -> (d: Cursor)
    ensures
        d == cursor_after(c, kind, role),
{
    Cursor {
        depth: if kind == TokenKind::LeftBrace && c.depth < usize::MAX {
            c.depth + 1
        } else if kind == TokenKind::RightBrace && c.depth > 0 {
            c.depth - 1
        } else {
            c.depth
        },
        inline: if kind == TokenKind::LeftBrace {
            role.inline
        } else if kind == TokenKind::RightBrace {
            false
        } else {
            c.inline
        },
        prev: Some(kind),
    }
}

} // verus!
