//! Conversions between Rust strings and the code-point sequences the engine
//! works on.

use vstd::prelude::*;

verus! {

/// The code points of `s`, in order.
pub fn chars_of(s: &str) -> (v: Vec<char>)
    ensures
        v@ == s@,
{
    let mut v: Vec<char> = Vec::new();
    for c in it: s.chars()
        invariant
            v@ == it.seq().take(it.index() as int),
            it.seq() == s@,
    {
        v.push(c);
    }
    v
}

/// Whether two stretches of text are equal.
pub fn same_range(
    a: &Vec<char>,
    a_from: usize,
    a_to: usize,
    b: &Vec<char>,
    b_from: usize,
    b_to: usize,
) -> (r: bool)
    requires
        a_from <= a_to <= a.len(),
        b_from <= b_to <= b.len(),
    ensures
        r == (a@.subrange(a_from as int, a_to as int) == b@.subrange(b_from as int, b_to as int)),
{
    let ghost x = a@.subrange(a_from as int, a_to as int);
    let ghost y = b@.subrange(b_from as int, b_to as int);
    if a_to - a_from != b_to - b_from {
        assert(x.len() != y.len());
        return false;
    }
    let width: usize = a_to - a_from;
    let mut j: usize = 0;
    while j < width
        invariant
            j <= width,
            width == a_to - a_from,
            width == b_to - b_from,
            a_to <= a.len(),
            b_to <= b.len(),
            x == a@.subrange(a_from as int, a_to as int),
            y == b@.subrange(b_from as int, b_to as int),
            forall|k: int| 0 <= k < j ==> x[k] == y[k],
        decreases width - j,
    {
        if a[a_from + j] != b[b_from + j] {
            assert(x[j as int] != y[j as int]);
            return false;
        }
        j = j + 1;
    }
    assert(x =~= y);
    true
}

/// Appends one code point to a string, by `String::push` of the standard
/// library. The contract says what the documentation of `String::push`
/// says: the string afterwards is the string before with `c` at its end.
#[verifier::external_body]
fn push_char(s: &mut String, c: char)
    ensures
        final(s)@ == old(s)@.push(c),
{
    s.push(c);
}

/// The string that holds the code points of `v`, in order.
pub fn string_of(v: &Vec<char>) -> (s: String)
    ensures
        s@ == v@,
{
    let mut s = String::new();
    let mut i: usize = 0;
    while i < v.len()
        invariant
            i <= v.len(),
            s@ == v@.take(i as int),
        decreases v.len() - i,
    {
        push_char(&mut s, v[i]);
        i = i + 1;
        assert(s@ =~= v@.take(i as int));
    }
    assert(v@.take(i as int) =~= v@);
    s
}

} // verus!
