//! Conversion between character offsets and line/column positions.
use vstd::prelude::*;
use crate::text::TextRange;

verus! {

/// A zero-based line and column.
#[derive(Debug, Clone, Copy, PartialEq, Eq, Structural)]
pub struct LineCol {
    pub line: usize,
    pub character: usize,
}

#[derive(Debug, Clone, Copy, PartialEq, Eq, Structural)]
pub struct LineColRange {
    pub start: LineCol,
    pub end: LineCol,
}

/// The offsets at which the lines of `text[..k]` start.
pub open spec fn line_starts(text: Seq<char>, k: int) -> Seq<usize>
    decreases k,
{
    if k <= 0 {
        seq![0usize]
    } else if text[k - 1] == '\n' {
        line_starts(text, k - 1).push(k as usize)
    } else {
        line_starts(text, k - 1)
    }
}

/// The offset of `line` and `character` over the line starts `starts` of a
/// text of length `len`, if the column lies within the line (its end
/// included).
pub open spec fn position_offset(starts: Seq<usize>, len: int, line: int, character: int) -> Option<int> {
    if 0 <= line < starts.len() && starts[line] + character <= (
        if line + 1 < starts.len() { starts[line + 1] - 1 } else { len }) {
        Some(starts[line] + character)
    } else {
        None
    }
}

/// `lc` is the line and column of `offset` over the line starts `starts`.
pub open spec fn is_line_col(starts: Seq<usize>, offset: int, lc: LineCol) -> bool {
    &&& lc.line < starts.len()
    &&& starts[lc.line as int] <= offset
    &&& lc.line + 1 < starts.len() ==> offset < starts[lc.line + 1]
    &&& lc.character == offset - starts[lc.line as int]
}

/// The line starts of a text, in increasing order, and its length.
pub struct LineIndex {
    pub starts: Vec<usize>,
    pub len: usize,
}

impl LineIndex {
    pub open spec fn wf(&self) -> bool {
        &&& self.starts@.len() >= 1
        &&& self.starts@[0] == 0
        &&& forall|i: int, j: int| 0 <= i < j < self.starts@.len() ==> #[trigger] self.starts@[i] < #[trigger] self.starts@[j]
        &&& forall|i: int| 0 <= i < self.starts@.len() ==> #[trigger] self.starts@[i] <= self.len
    }

    pub fn new(text: &Vec<char>) -> (r: LineIndex)
        ensures
            r.wf(),
            r.starts@ == line_starts(text@, text@.len() as int),
            r.len == text@.len(),
    {
        let mut starts: Vec<usize> = Vec::new();
        starts.push(0);
        let mut k: usize = 0;
        while k < text.len()
            invariant
                k <= text@.len(),
                starts@ == line_starts(text@, k as int),
                starts@.len() >= 1,
                starts@[0] == 0,
                forall|i: int, j: int| 0 <= i < j < starts@.len() ==> #[trigger] starts@[i] < #[trigger] starts@[j],
                forall|i: int| 0 <= i < starts@.len() ==> #[trigger] starts@[i] <= k,
            decreases text.len() - k,
        {
            if text[k] == '\n' {
                starts.push(k + 1);
            }
            k = k + 1;
        }
        LineIndex { starts, len: text.len() }
    }

    /// The line and column of `offset`: the last line that starts at or
    /// before it, and the distance from that start.
    pub fn line_col(&self, offset: usize) -> (r: LineCol)
        requires
            self.wf(),
            offset <= self.len,
        ensures
            is_line_col(self.starts@, offset as int, r),
    {
        let mut line: usize = 0;
        while line < self.starts.len() - 1 && self.starts[line + 1] <= offset
            invariant
                self.wf(),
                line < self.starts@.len(),
                self.starts@[line as int] <= offset,
            decreases self.starts.len() - line,
        {
            line = line + 1;
        }
        LineCol { line, character: offset - self.starts[line] }
    }

    pub fn line_col_range(&self, range: TextRange) -> (r: LineColRange)
        requires
            self.wf(),
            range.start <= self.len,
            range.end <= self.len,
        ensures
            is_line_col(self.starts@, range.start as int, r.start),
            is_line_col(self.starts@, range.end as int, r.end),
    {
        LineColRange { start: self.line_col(range.start), end: self.line_col(range.end) }
    }

    /// The offset of a line and column, if the column lies within the line
    /// (its end included).
    pub fn offset(&self, pos: LineCol) -> (r: Option<usize>)
        requires
            self.wf(),
        ensures
            r.is_some() == position_offset(self.starts@, self.len as int, pos.line as int, pos.character as int).is_some(),
            r.is_some() ==> r.unwrap() as int == position_offset(self.starts@, self.len as int, pos.line as int, pos.character as int).unwrap(),
    {
        if pos.line >= self.starts.len() {
            return None;
        }
        let start = self.starts[pos.line];
        let end = if pos.line < self.starts.len() - 1 { self.starts[pos.line + 1] - 1 } else { self.len };
        if pos.character <= end - start {
            Some(start + pos.character)
        } else {
            None
        }
    }
}

} // verus!
