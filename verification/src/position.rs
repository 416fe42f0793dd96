//! Conversion between offsets and (line, character) positions.
//!
//! Offsets, lines and characters are all zero-based and counted in code
//! points. A line ends with its `'\n'`; the offset just past a `'\n'` is
//! character 0 of the next line.

use vstd::prelude::*;

verus! {

/// A zero-based (line, character) pair, both counted in code points.
#[derive(Clone, Copy, Debug, PartialEq, Eq, Structural)]
pub struct Position {
    pub line: usize,
    pub character: usize,
}

/// The number of line breaks among the first `offset` code points of `s`.
pub open spec fn line_of(s: Seq<char>, offset: int) -> nat
    decreases offset,
{
    if offset <= 0 {
        0
    } else if s[offset - 1] == '\n' {
        line_of(s, offset - 1) + 1
    } else {
        line_of(s, offset - 1)
    }
}

/// The number of code points between the start of the line that holds
/// `offset` and `offset` itself.
pub open spec fn character_of(s: Seq<char>, offset: int) -> nat
    decreases offset,
{
    if offset <= 0 {
        0
    } else if s[offset - 1] == '\n' {
        0
    } else {
        character_of(s, offset - 1) + 1
    }
}

/// Whether `p` is the position of `offset` in `s`.
pub open spec fn is_position_of(s: Seq<char>, offset: int, p: Position) -> bool {
    &&& 0 <= offset <= s.len()
    &&& p.line == line_of(s, offset)
    &&& p.character == character_of(s, offset)
}

/// Lines and characters never outrun the offset they describe.
pub proof fn lemma_position_bounded(s: Seq<char>, offset: int)
    requires
        0 <= offset,
    ensures
        line_of(s, offset) + character_of(s, offset) <= offset,
    decreases offset,
{
    if offset > 0 {
        lemma_position_bounded(s, offset - 1);
    }
}

/// Moving right in the text either reaches a later line or stays on the
/// line and moves right by the same distance.
pub proof fn lemma_position_increases(s: Seq<char>, a: int, b: int)
    requires
        0 <= a <= b,
    ensures
        line_of(s, a) <= line_of(s, b),
        line_of(s, a) == line_of(s, b) ==> character_of(s, b) == character_of(s, a) + (b - a),
    decreases b,
{
    if a < b {
        lemma_position_increases(s, a, b - 1);
    }
}

/// Two offsets with the same position are the same offset.
pub proof fn lemma_position_injective(s: Seq<char>, a: int, b: int)
    requires
        0 <= a,
        0 <= b,
        line_of(s, a) == line_of(s, b),
        character_of(s, a) == character_of(s, b),
    ensures
        a == b,
{
    if a <= b {
        lemma_position_increases(s, a, b);
    } else {
        lemma_position_increases(s, b, a);
    }
}

/// The position one code point further on.
pub fn step_position(p: Position, c: char) -> (q: Position)
    requires
        p.line + p.character < usize::MAX,
    ensures
        c == '\n' ==> q.line == p.line + 1 && q.character == 0,
        c != '\n' ==> q.line == p.line && q.character == p.character + 1,
{
    if c == '\n' {
        Position { line: p.line + 1, character: 0 }
    } else {
        Position { line: p.line, character: p.character + 1 }
    }
}

/// The position reached from `from` (at position `p`) by walking to `to`.
pub fn advance_position(text: &Vec<char>, from: usize, to: usize, p: Position) -> (q: Position)
    requires
        from <= to <= text.len(),
        is_position_of(text@, from as int, p),
    ensures
        is_position_of(text@, to as int, q),
{
    let mut q = p;
    let mut i: usize = from;
    while i < to
        invariant
            from <= i <= to <= text.len(),
            is_position_of(text@, i as int, q),
        decreases to - i,
    {
        proof {
            lemma_position_bounded(text@, i as int);
        }
        q = step_position(q, text[i]);
        i = i + 1;
    }
    q
}

/// The position of `offset`, or `None` when `offset` lies past the end of
/// the text.
pub fn position_at(text: &Vec<char>, offset: usize) -> (r: Option<Position>)
    ensures
        offset <= text.len() ==> r is Some && is_position_of(text@, offset as int, r->0),
        offset > text.len() ==> r is None,
{
    if offset > text.len() {
        None
    } else {
        Some(advance_position(text, 0, offset, Position { line: 0, character: 0 }))
    }
}

/// The offset that has position `p`, or `None` when no offset of the text
/// has it.
pub fn offset_at(text: &Vec<char>, p: Position) -> (r: Option<usize>)
    ensures
        r is Some ==> is_position_of(text@, r->0 as int, p),
        r is None ==> forall|o: int| 0 <= o <= text.len() ==> !is_position_of(text@, o, p),
{
    let mut q = Position { line: 0, character: 0 };
    let mut i: usize = 0;
    loop
        invariant
            i <= text.len(),
            is_position_of(text@, i as int, q),
            forall|o: int| 0 <= o < i ==> !is_position_of(text@, o, p),
        decreases text.len() - i,
    {
        if q.line == p.line && q.character == p.character {
            return Some(i);
        }
        if i == text.len() {
            return None;
        }
        proof {
            lemma_position_bounded(text@, i as int);
        }
        q = step_position(q, text[i]);
        i = i + 1;
    }
}

/// Converting an offset to a position and back gives the offset again.
pub proof fn lemma_offset_round_trip(s: Seq<char>, offset: int, p: Position, back: int)
    requires
        is_position_of(s, offset, p),
        is_position_of(s, back, p),
    ensures
        back == offset,
{
    lemma_position_injective(s, offset, back);
}

/// The number of bytes that `c` takes in UTF-8.
pub open spec fn width_of(c: char) -> int {
    if (c as u32) < 0x80 {
        1
    } else if (c as u32) < 0x800 {
        2
    } else if (c as u32) < 0x10000 {
        3
    } else {
        4
    }
}

/// The number of bytes that the first `offset` code points of `s` take in
/// UTF-8: the byte offset of the code point at `offset`.
pub open spec fn bytes_before(s: Seq<char>, offset: int) -> int
    decreases offset,
{
    if offset <= 0 {
        0
    } else {
        bytes_before(s, offset - 1) + width_of(s[offset - 1])
    }
}

/// The number of bytes that `c` takes in UTF-8.
pub fn width(c: char) -> (w: usize)
    ensures
        w == width_of(c),
{
    let v: u32 = c as u32;
    if v < 0x80 {
        1
    } else if v < 0x800 {
        2
    } else if v < 0x10000 {
        3
    } else {
        4
    }
}

/// The byte offset, in UTF-8, of the code point at `offset`. Gives `None`
/// when `offset` lies past the end of the text, or when the byte offset is
/// more than the machine can count.
pub fn byte_offset_at(text: &Vec<char>, offset: usize) -> (r: Option<usize>)
    ensures
        r is Some <==> offset <= text.len() && bytes_before(text@, offset as int) <= usize::MAX,
        r matches Some(b) ==> b == bytes_before(text@, offset as int),
{
    if offset > text.len() {
        return None;
    }
    let mut bytes: usize = 0;
    let mut i: usize = 0;
    while i < offset
        invariant
            i <= offset <= text.len(),
            bytes == bytes_before(text@, i as int),
        decreases offset - i,
    {
        let w = width(text[i]);
        if bytes > usize::MAX - w {
            proof {
                lemma_bytes_increase(text@, i + 1, offset as int);
            }
            return None;
        }
        bytes = bytes + w;
        i = i + 1;
    }
    Some(bytes)
}

/// Byte offsets grow with offsets.
pub proof fn lemma_bytes_increase(s: Seq<char>, a: int, b: int)
    requires
        0 <= a <= b,
    ensures
        bytes_before(s, a) + (b - a) <= bytes_before(s, b),
    decreases b,
{
    if a < b {
        lemma_bytes_increase(s, a, b - 1);
    }
}

} // verus!
