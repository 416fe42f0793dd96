//! Diagnostics and their order.

use vstd::prelude::*;

verus! {

/// How grave a diagnostic is.
#[derive(Clone, Copy, Debug, PartialEq, Eq, Structural)]
pub enum Level {
    Error,
    Warning,
    Info,
}

/// What a diagnostic reports. The first six are syntax errors; the last is
/// kept for a rule that gives up on a node.
#[derive(Clone, Copy, Debug, PartialEq, Eq, Structural)]
pub enum Code {
    InvalidToken,
    UnexpectedToken,
    UnmatchedBrace,
    AttributeOutsideSection,
    UnexpectedEnd,
    MissingBrace,
    DuplicateAttribute,
    TypeMismatch,
    UnknownAttribute,
    Deprecated,
    InternalRuleError,
}

/// A reported issue: what it is, how grave it is, and the stretch of text
/// it is about, from its first code point to the one after its last.
#[derive(Clone, Copy, Debug, PartialEq, Eq, Structural)]
pub struct Diagnostic {
    pub level: Level,
    pub code: Code,
    pub start_line: usize,
    pub start_character: usize,
    pub end_line: usize,
    pub end_character: usize,
}

impl Level {
    pub open spec fn rank(self) -> int {
        match self {
            Level::Error => 0,
            Level::Warning => 1,
            Level::Info => 2,
        }
    }

    /// The level's name.
    pub open spec fn name(self) -> Seq<char> {
        match self {
            Level::Error => "error"@,
            Level::Warning => "warning"@,
            Level::Info => "info"@,
        }
    }

    pub fn order(self) -> (r: u8)
        ensures
            r == self.rank(),
    {
        match self {
            Level::Error => 0,
            Level::Warning => 1,
            Level::Info => 2,
        }
    }

    pub fn as_str(self) -> (r: &'static str)
        ensures
            r@ == self.name(),
    {
        match self {
            Level::Error => "error",
            Level::Warning => "warning",
            Level::Info => "info",
        }
    }
}

impl Code {
    pub open spec fn rank(self) -> int {
        match self {
            Code::InvalidToken => 0,
            Code::UnexpectedToken => 1,
            Code::UnmatchedBrace => 2,
            Code::AttributeOutsideSection => 3,
            Code::UnexpectedEnd => 4,
            Code::MissingBrace => 5,
            Code::DuplicateAttribute => 6,
            Code::TypeMismatch => 7,
            Code::UnknownAttribute => 8,
            Code::Deprecated => 9,
            Code::InternalRuleError => 10,
        }
    }

    /// Whether the code is a syntax error.
    pub open spec fn is_syntax(self) -> bool {
        self.rank() <= 5
    }

    /// The level at which the code is reported.
    pub open spec fn level_of(self) -> Level {
        match self {
            Code::UnknownAttribute => Level::Warning,
            Code::Deprecated => Level::Info,
            _ => Level::Error,
        }
    }

    /// The code's stable short name.
    pub open spec fn name(self) -> Seq<char> {
        match self {
            Code::InvalidToken => "E001"@,
            Code::UnexpectedToken => "E002"@,
            Code::UnmatchedBrace => "E003"@,
            Code::AttributeOutsideSection => "E004"@,
            Code::UnexpectedEnd => "E005"@,
            Code::MissingBrace => "E006"@,
            Code::DuplicateAttribute => "E101"@,
            Code::TypeMismatch => "E102"@,
            Code::UnknownAttribute => "W101"@,
            Code::Deprecated => "I101"@,
            Code::InternalRuleError => "E999"@,
        }
    }

    /// What the code says in words.
    pub open spec fn text(self) -> Seq<char> {
        match self {
            Code::InvalidToken => "this text cannot be read"@,
            Code::UnexpectedToken => "this token cannot stand here"@,
            Code::UnmatchedBrace => "this closing brace closes nothing"@,
            Code::AttributeOutsideSection => "an attribute must stand inside a section"@,
            Code::UnexpectedEnd => "the text ends inside this item"@,
            Code::MissingBrace => "this section is never closed"@,
            Code::DuplicateAttribute => "this key is already set in this section"@,
            Code::TypeMismatch => "this value has not the form that the key expects"@,
            Code::UnknownAttribute => "this key is not known for this kind of section"@,
            Code::Deprecated => "this key is deprecated"@,
            Code::InternalRuleError => "a rule could not be evaluated here"@,
        }
    }

    pub fn order(self) -> (r: u8)
        ensures
            r == self.rank(),
    {
        match self {
            Code::InvalidToken => 0,
            Code::UnexpectedToken => 1,
            Code::UnmatchedBrace => 2,
            Code::AttributeOutsideSection => 3,
            Code::UnexpectedEnd => 4,
            Code::MissingBrace => 5,
            Code::DuplicateAttribute => 6,
            Code::TypeMismatch => 7,
            Code::UnknownAttribute => 8,
            Code::Deprecated => 9,
            Code::InternalRuleError => 10,
        }
    }

    pub fn level(self) -> (r: Level)
        ensures
            r == self.level_of(),
    {
        match self {
            Code::UnknownAttribute => Level::Warning,
            Code::Deprecated => Level::Info,
            _ => Level::Error,
        }
    }

    pub fn as_str(self) -> (r: &'static str)
        ensures
            r@ == self.name(),
    {
        match self {
            Code::InvalidToken => "E001",
            Code::UnexpectedToken => "E002",
            Code::UnmatchedBrace => "E003",
            Code::AttributeOutsideSection => "E004",
            Code::UnexpectedEnd => "E005",
            Code::MissingBrace => "E006",
            Code::DuplicateAttribute => "E101",
            Code::TypeMismatch => "E102",
            Code::UnknownAttribute => "W101",
            Code::Deprecated => "I101",
            Code::InternalRuleError => "E999",
        }
    }

    pub fn message(self) -> (r: &'static str)
        ensures
            r@ == self.text(),
    {
        match self {
            Code::InvalidToken => "this text cannot be read",
            Code::UnexpectedToken => "this token cannot stand here",
            Code::UnmatchedBrace => "this closing brace closes nothing",
            Code::AttributeOutsideSection => "an attribute must stand inside a section",
            Code::UnexpectedEnd => "the text ends inside this item",
            Code::MissingBrace => "this section is never closed",
            Code::DuplicateAttribute => "this key is already set in this section",
            Code::TypeMismatch => "this value has not the form that the key expects",
            Code::UnknownAttribute => "this key is not known for this kind of section",
            Code::Deprecated => "this key is deprecated",
            Code::InternalRuleError => "a rule could not be evaluated here",
        }
    }
}

/// Whether `a` comes before `b`: by start line, then start character, then
/// end line, end character, code and level.
pub open spec fn precedes(a: Diagnostic, b: Diagnostic) -> bool {
    if a.start_line != b.start_line {
        a.start_line < b.start_line
    } else if a.start_character != b.start_character {
        a.start_character < b.start_character
    } else if a.end_line != b.end_line {
        a.end_line < b.end_line
    } else if a.end_character != b.end_character {
        a.end_character < b.end_character
    } else if a.code.rank() != b.code.rank() {
        a.code.rank() < b.code.rank()
    } else {
        a.level.rank() < b.level.rank()
    }
}

/// Whether each of `v` comes before all that follow it. Such a list holds
/// nothing twice.
pub open spec fn is_sorted(v: Seq<Diagnostic>) -> bool {
    forall|i: int, j: int| 0 <= i < j < v.len() ==> precedes(#[trigger] v[i], #[trigger] v[j])
}

/// Whether each of `v` starts at or behind the start of the one before it.
pub open spec fn starts_ascend(v: Seq<Diagnostic>) -> bool {
    forall|i: int, j: int|
        0 <= i < j < v.len() ==> (#[trigger] v[i]).start_line < (#[trigger] v[j]).start_line || (
        v[i].start_line == v[j].start_line && v[i].start_character <= v[j].start_character)
}

/// A sorted list ascends by the start of its diagnostics.
pub proof fn lemma_sorted_starts_ascend(v: Seq<Diagnostic>)
    requires
        is_sorted(v),
    ensures
        starts_ascend(v),
{
}

/// Of two different diagnostics one comes before the other.
pub proof fn lemma_precedes_total(a: Diagnostic, b: Diagnostic)
    ensures
        a == b || precedes(a, b) || precedes(b, a),
        !(precedes(a, b) && precedes(b, a)),
        !precedes(a, a),
{
}

/// Coming before is transitive.
pub proof fn lemma_precedes_transitive(a: Diagnostic, b: Diagnostic, c: Diagnostic)
    requires
        precedes(a, b),
        precedes(b, c),
    ensures
        precedes(a, c),
{
}

/// Whether `a` comes before `b`.
pub fn comes_before(a: Diagnostic, b: Diagnostic) -> (r: bool)
    ensures
        r == precedes(a, b),
{
    if a.start_line != b.start_line {
        a.start_line < b.start_line
    } else if a.start_character != b.start_character {
        a.start_character < b.start_character
    } else if a.end_line != b.end_line {
        a.end_line < b.end_line
    } else if a.end_character != b.end_character {
        a.end_character < b.end_character
    } else if a.code.order() != b.code.order() {
        a.code.order() < b.code.order()
    } else {
        a.level.order() < b.level.order()
    }
}

/// Puts `d` into the sorted list `v` at its place, unless `v` holds it.
pub fn insert_sorted(v: &mut Vec<Diagnostic>, d: Diagnostic)
    requires
        is_sorted(old(v)@),
    ensures
        is_sorted(final(v)@),
        forall|x: Diagnostic| final(v)@.contains(x) <==> (old(v)@.contains(x) || x == d),
        final(v)@.len() == old(v)@.len() + (if old(v)@.contains(d) {
            0int
        } else {
            1int
        }),
{
    let ghost before = v@;
    let mut j: usize = v.len();
    while j > 0 && comes_before(d, v[j - 1])
        invariant
            j <= v.len(),
            v@ == before,
            forall|k: int| j <= k < v.len() ==> precedes(d, #[trigger] v@[k]),
        decreases j,
    {
        j = j - 1;
    }
    proof {
        assert forall|k: int| j <= k < before.len() implies before[k] != d by {
            lemma_precedes_total(d, before[k]);
        }
        if j > 0 {
            lemma_precedes_total(d, before[j - 1]);
            assert forall|k: int| 0 <= k < j - 1 implies precedes(#[trigger] before[k], d)
                && before[k] != d by {
                lemma_precedes_total(before[k], d);
                if before[j - 1] != d {
                    lemma_precedes_transitive(before[k], before[j - 1], d);
                }
            }
        }
    }
    if j > 0 && !comes_before(v[j - 1], d) {
        proof {
            lemma_precedes_total(d, before[j - 1]);
            assert(before[j - 1] == d);
            assert(before.contains(d));
        }
    } else {
        proof {
            assert forall|k: int| 0 <= k < before.len() implies before[k] != d by {
                if k == j - 1 {
                    lemma_precedes_total(d, before[k]);
                }
            }
            assert(!before.contains(d));
        }
        v.insert(j, d);
        proof {
            let after = v@;
            assert(after == before.insert(j as int, d));
            assert forall|a: int, b: int| 0 <= a < b < after.len() implies precedes(
                #[trigger] after[a],
                #[trigger] after[b],
            ) by {
                if b < j {
                    assert(after[a] == before[a] && after[b] == before[b]);
                } else if b == j {
                    assert(after[a] == before[a]);
                    if a < j - 1 {
                        lemma_precedes_transitive(before[a], before[j - 1], d);
                    }
                } else if a < j {
                    assert(after[a] == before[a] && after[b] == before[b - 1]);
                } else if a == j {
                    assert(after[b] == before[b - 1]);
                } else {
                    assert(after[a] == before[a - 1] && after[b] == before[b - 1]);
                }
            }
            assert forall|x: Diagnostic| after.contains(x) <==> (before.contains(x) || x
                == d) by {
                if after.contains(x) {
                    let k = choose|k: int| 0 <= k < after.len() && after[k] == x;
                    if k < j {
                        assert(before[k] == x);
                    } else if k > j {
                        assert(before[k - 1] == x);
                    }
                }
                if before.contains(x) {
                    let k = choose|k: int| 0 <= k < before.len() && before[k] == x;
                    if k < j {
                        assert(after[k] == x);
                    } else {
                        assert(after[k + 1] == x);
                    }
                }
                if x == d {
                    assert(after[j as int] == d);
                }
            }
        }
    }
}

/// The diagnostics of `items` in order, each once.
pub fn sort_diagnostics(items: &Vec<Diagnostic>) -> (sorted: Vec<Diagnostic>)
    ensures
        is_sorted(sorted@),
        forall|x: Diagnostic| sorted@.contains(x) <==> items@.contains(x),
        sorted.len() <= items.len(),
{
    let mut sorted: Vec<Diagnostic> = Vec::new();
    let mut i: usize = 0;
    while i < items.len()
        invariant
            i <= items.len(),
            is_sorted(sorted@),
            sorted.len() <= i,
            forall|x: Diagnostic| sorted@.contains(x) <==> items@.take(i as int).contains(x),
        decreases items.len() - i,
    {
        let ghost seen = items@.take(i as int);
        insert_sorted(&mut sorted, items[i]);
        proof {
            let next = items@.take(i + 1);
            assert(next == seen.push(items@[i as int]));
            assert forall|x: Diagnostic| next.contains(x) <==> (seen.contains(x) || x
                == items@[i as int]) by {
                if next.contains(x) {
                    let k = choose|k: int| 0 <= k < next.len() && next[k] == x;
                    if k < i {
                        assert(seen[k] == x);
                    }
                }
                if seen.contains(x) {
                    let k = choose|k: int| 0 <= k < seen.len() && seen[k] == x;
                    assert(next[k] == x);
                }
                if x == items@[i as int] {
                    assert(next[i as int] == x);
                }
            }
        }
        i = i + 1;
    }
    assert(items@.take(i as int) =~= items@);
    sorted
}

} // verus!
