//! The document tree, kept as an arena: sections and attributes are plain
//! records that name tokens and each other by index.

use vstd::prelude::*;

verus! {

/// The form of an attribute's value.
#[derive(Clone, Copy, Debug, PartialEq, Eq, Structural)]
pub enum ValueKind {
    Str,
    Number,
    Identifier,
    List,
}

/// A key and its value inside a section. `key` is the index of the key's
/// token; the value's tokens run from index `first` to index `last`, both
/// included (for a list, its two brackets).
#[derive(Clone, Copy, Debug, PartialEq, Eq, Structural)]
pub struct Attribute {
    pub section: usize,
    pub key: usize,
    pub value: ValueKind,
    pub first: usize,
    pub last: usize,
}

/// A named block. `kind` and `name` are the indices of the tokens that give
/// the section's kind tag and its name (the same token where the section
/// has no name of its own); `open` and `close` are the indices of its two
/// braces, `close` being `None` for a section that was never closed.
/// `parent` is the index of the enclosing section and `depth` the number
/// of enclosing sections. `has_comment` records a comment between the
/// braces that lies in no nested section.
#[derive(Clone, Copy, Debug, PartialEq, Eq, Structural)]
pub struct Section {
    pub kind: usize,
    pub name: usize,
    pub open: usize,
    pub close: Option<usize>,
    pub parent: Option<usize>,
    pub depth: usize,
    pub has_comment: bool,
}

/// Why the parser could not go on at a token.
#[derive(Clone, Copy, Debug, PartialEq, Eq, Structural)]
pub enum SyntaxErrorKind {
    /// The lexer could not read the token.
    InvalidToken,
    /// The token cannot stand where it stands.
    UnexpectedToken,
    /// A closing brace with no section open.
    UnmatchedBrace,
    /// A key and `=` outside every section.
    AttributeOutsideSection,
    /// The text ended inside an item.
    UnexpectedEnd,
    /// The section opened at this token is never closed.
    MissingBrace,
}

/// A syntax error and the index of the token it is reported at.
#[derive(Clone, Copy, Debug, PartialEq, Eq, Structural)]
pub struct SyntaxError {
    pub token: usize,
    pub kind: SyntaxErrorKind,
}

/// A parsed text: the arena of its sections and attributes, each in the
/// order in which it starts in the text, and the syntax errors met.
pub struct Document {
    pub sections: Vec<Section>,
    pub attributes: Vec<Attribute>,
    pub errors: Vec<SyntaxError>,
}

/// The mathematical value of a `Document`.
pub struct DocumentView {
    pub sections: Seq<Section>,
    pub attributes: Seq<Attribute>,
    pub errors: Seq<SyntaxError>,
}

impl View for Document {
    type V = DocumentView;

    open spec fn view(&self) -> DocumentView {
        DocumentView {
            sections: self.sections@,
            attributes: self.attributes@,
            errors: self.errors@,
        }
    }
}

impl DocumentView {
    /// The document of the empty text.
    pub open spec fn empty() -> DocumentView {
        DocumentView { sections: Seq::empty(), attributes: Seq::empty(), errors: Seq::empty() }
    }

    /// Whether section `k` names only tokens below `n`, in the order in
    /// which they stand in the text, and lies between the braces of a
    /// parent that starts before it.
    pub open spec fn section_ok(self, k: int, n: int) -> bool {
        let s = self.sections[k];
        &&& s.kind <= s.name < s.open < n
        &&& s.close matches Some(c) ==> s.open < c < n
        &&& s.parent matches Some(p) ==> p < k && self.sections[p as int].open < s.kind
            && s.depth == self.sections[p as int].depth + 1 && self.closes_inside(
            s.close,
            p as int,
        )
        &&& s.parent is None ==> s.depth == 0
    }

    /// Whether what ends at token `close` (or never ends) ends before
    /// section `p` closes, if that section closes at all.
    pub open spec fn closes_inside(self, close: Option<usize>, p: int) -> bool {
        self.sections[p].close matches Some(outer) ==> (close matches Some(inner) && inner < outer)
    }

    /// Whether attribute `a` names only tokens below `n`, in the order in
    /// which they stand in the text, and lies between the braces of its
    /// section.
    pub open spec fn attribute_ok(self, a: int, n: int) -> bool {
        let at = self.attributes[a];
        &&& at.key < at.first <= at.last < n
        &&& at.value != ValueKind::List ==> at.first == at.last
        &&& at.section < self.sections.len()
        &&& self.sections[at.section as int].open < at.key
        &&& self.closes_inside(Some(at.last), at.section as int)
    }

    /// Whether the document is a well-formed arena over `n` tokens.
    pub open spec fn well_formed(self, n: int) -> bool {
        &&& forall|k: int| 0 <= k < self.sections.len() ==> #[trigger] self.section_ok(k, n)
        &&& forall|a: int| 0 <= a < self.attributes.len() ==> #[trigger] self.attribute_ok(a, n)
        &&& forall|e: int| 0 <= e < self.errors.len() ==> (#[trigger] self.errors[e]).token < n
    }

    /// Whether the text parsed without a syntax error.
    pub open spec fn is_clean(self) -> bool {
        self.errors.len() == 0
    }
}

/// Whether `list` holds, in ascending order and each once, exactly the
/// numbers below `n` that are `wanted`.
pub open spec fn lists_exactly(list: Seq<usize>, n: int, wanted: spec_fn(int) -> bool) -> bool {
    &&& forall|i: int, j: int| 0 <= i < j < list.len() ==> list[i] < list[j]
    &&& forall|i: int| 0 <= i < list.len() ==> (#[trigger] list[i]) < n && wanted(list[i] as int)
    &&& forall|k: int| 0 <= k < n && #[trigger] wanted(k) ==> list.contains(k as usize)
}

/// One more number at the end of such a list, or none, makes the list for
/// one number more.
pub proof fn lemma_lists_exactly_next(
    list: Seq<usize>,
    n: int,
    wanted: spec_fn(int) -> bool,
    next: Seq<usize>,
)
    requires
        lists_exactly(list, n, wanted),
        0 <= n < usize::MAX,
        next == (if wanted(n) {
            list.push(n as usize)
        } else {
            list
        }),
    ensures
        lists_exactly(next, n + 1, wanted),
{
    assert forall|k: int| 0 <= k < n + 1 && #[trigger] wanted(k) implies next.contains(
        k as usize,
    ) by {
        if k < n {
            let i = choose|i: int| 0 <= i < list.len() && list[i] == k as usize;
            assert(next[i] == k as usize);
        } else {
            assert(next[list.len() as int] == n as usize);
        }
    }
}

impl DocumentView {
    /// Whether section `k` lies directly in `parent`, or at the top level
    /// for `None`.
    pub open spec fn is_child(self, parent: Option<usize>, k: int) -> bool {
        self.sections[k].parent == parent
    }

    /// Whether attribute `a` belongs to section `section`.
    pub open spec fn is_attribute_of(self, section: usize, a: int) -> bool {
        self.attributes[a].section == section
    }
}

impl Document {
    /// The sections that lie directly in section `parent`, or at the top
    /// level for `None`, in the order of the text.
    pub fn children_of(&self, parent: Option<usize>) -> (list: Vec<usize>)
        ensures
            lists_exactly(list@, self.sections.len() as int, |k: int| self@.is_child(parent, k)),
    {
        let ghost wanted = |k: int| self@.is_child(parent, k);
        let mut list: Vec<usize> = Vec::new();
        let mut k: usize = 0;
        while k < self.sections.len()
            invariant
                k <= self.sections.len(),
                wanted == (|k: int| self@.is_child(parent, k)),
                lists_exactly(list@, k as int, wanted),
            decreases self.sections.len() - k,
        {
            let ghost before = list@;
            let here = match (self.sections[k].parent, parent) {
                (Some(p), Some(q)) => p == q,
                (None, None) => true,
                _ => false,
            };
            if here {
                list.push(k);
            }
            proof {
                assert(here == wanted(k as int));
                lemma_lists_exactly_next(before, k as int, wanted, list@);
            }
            k = k + 1;
        }
        list
    }

    /// The attributes of section `section`, in the order of the text.
    pub fn attributes_of(&self, section: usize) -> (list: Vec<usize>)
        ensures
            lists_exactly(
                list@,
                self.attributes.len() as int,
                |a: int| self@.is_attribute_of(section, a),
            ),
    {
        let ghost wanted = |a: int| self@.is_attribute_of(section, a);
        let mut list: Vec<usize> = Vec::new();
        let mut a: usize = 0;
        while a < self.attributes.len()
            invariant
                a <= self.attributes.len(),
                wanted == (|a: int| self@.is_attribute_of(section, a)),
                lists_exactly(list@, a as int, wanted),
            decreases self.attributes.len() - a,
        {
            let ghost before = list@;
            let here = self.attributes[a].section == section;
            if here {
                list.push(a);
            }
            proof {
                assert(here == wanted(a as int));
                lemma_lists_exactly_next(before, a as int, wanted, list@);
            }
            a = a + 1;
        }
        list
    }
}

} // verus!
