//! Text helpers: character sequences, ranges and string conversion.
use vstd::prelude::*;

verus! {

/// A half-open range of character offsets into a document's text.
#[derive(Debug, Clone, Copy, PartialEq, Eq, Structural)]
pub struct TextRange {
    pub start: usize,
    pub end: usize,
}

impl TextRange {
    pub fn new(start: usize, end: usize) -> (r: TextRange)
        ensures
            r.start == start,
            r.end == end,
    {
        TextRange { start, end }
    }

    /// Whether `offset` lies in the range, its end included.
    pub fn contains_inclusive(&self, offset: usize) -> (r: bool)
        ensures
            r == (self.start <= offset && offset <= self.end),
    {
        self.start <= offset && offset <= self.end
    }
}

/// Copies the characters of a string into a vector.
pub fn to_chars(s: &str) -> (r: Vec<char>)
    ensures
        r@ == s@,
{
    let mut r: Vec<char> = Vec::new();
    for c in it: s.chars()
        invariant
            r@ == it.seq().take(it.index() as int),
    {
        r.push(c);
    }
    r
}

/// Relies on `FromIterator<char>` for `String`: the string holds exactly the
/// characters collected, in order.
#[verifier::external_body]
pub(crate) fn string_from_chars(v: &[char]) -> (r: String)
    ensures
        r@ == v@,
{
    v.iter().collect::<String>()
}

/// The characters `text[start..end]` as a string.
pub fn substring(text: &Vec<char>, start: usize, end: usize) -> (r: String)
    requires
        start <= end <= text@.len(),
    ensures
        r@ == text@.subrange(start as int, end as int),
{
    let v = slice_chars(text, start, end);
    string_from_chars(v.as_slice())
}

/// Whether `text[start..end]` equals `s`.
pub fn slice_eq(text: &Vec<char>, start: usize, end: usize, s: &Vec<char>) -> (r: bool)
    requires
        start <= end <= text@.len(),
    ensures
        r == (text@.subrange(start as int, end as int) == s@),
{
    if end - start != s.len() {
        assert(text@.subrange(start as int, end as int).len() != s@.len());
        return false;
    }
    let mut i: usize = 0;
    while i < s.len()
        invariant
            end - start == s@.len(),
            start <= end <= text@.len(),
            i <= s@.len(),
            forall|k: int| 0 <= k < i ==> text@[start + k] == s@[k],
        decreases s.len() - i,
    {
        if text[start + i] != s[i] {
            assert(text@.subrange(start as int, end as int)[i as int] != s@[i as int]);
            return false;
        }
        i = i + 1;
    }
    assert(text@.subrange(start as int, end as int) =~= s@);
    true
}

/// Whether two character vectors are equal.
pub fn chars_eq(a: &Vec<char>, b: &Vec<char>) -> (r: bool)
    ensures
        r == (a@ == b@),
{
    let r = slice_eq(a, 0, a.len(), b);
    assert(a@.subrange(0, a@.len() as int) =~= a@);
    r
}

/// The characters `text[start..end]`.
pub fn slice_chars(text: &Vec<char>, start: usize, end: usize) -> (r: Vec<char>)
    requires
        start <= end <= text@.len(),
    ensures
        r@ == text@.subrange(start as int, end as int),
{
    let mut v: Vec<char> = Vec::new();
    let mut i: usize = start;
    while i < end
        invariant
            start <= i <= end <= text@.len(),
            v@ == text@.subrange(start as int, i as int),
        decreases end - i,
    {
        v.push(text[i]);
        i = i + 1;
    }
    v
}

} // verus!
