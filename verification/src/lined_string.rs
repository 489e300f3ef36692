//! A text with the offsets at which its lines begin, for turning byte
//! offsets into line and column positions.

use vstd::prelude::*;
use vstd::utf8::encode_utf8;

verus! {

/// A range of bytes in a source text: `start` inclusive, `end` exclusive.
#[derive(Clone, Copy, Debug, PartialEq, Eq, Structural)]
pub struct Span {
    pub start: usize,
    pub end: usize,
}

/// A source file: its path and the address under which an editor knows it.
#[derive(Debug)]
pub struct FileRef {
    pub path: String,
    pub url: String,
}

impl FileRef {
    /// A copy of the file reference.
    pub fn dup(&self) -> (r: FileRef)
        ensures
            r == *self,
    {
        FileRef { path: self.path.clone(), url: self.url.clone() }
    }
}

/// A range of bytes in a given source file.
#[derive(Debug)]
pub struct FileSpan {
    pub file: FileRef,
    pub span: Span,
}

/// A position in a text: a line and an offset in that line, both counted
/// from zero.
#[derive(Clone, Copy, Debug, PartialEq, Eq, Structural)]
pub struct Position {
    pub line: usize,
    pub character: usize,
}

/// A range in a text, from `start` up to `end`.
#[derive(Clone, Copy, Debug, PartialEq, Eq, Structural)]
pub struct Range {
    pub start: Position,
    pub end: Position,
}

/// A range in the file known under the address `uri`.
#[derive(Debug)]
pub struct Location {
    pub uri: String,
    pub range: Range,
}

/// The offsets just behind each line feed among the first `n` bytes of
/// `text`, in rising order: where the lines after the first begin.
pub open spec fn line_starts(text: Seq<u8>, n: nat) -> Seq<usize>
    decreases n,
{
    if n == 0 {
        Seq::empty()
    } else {
        let before = line_starts(text, (n - 1) as nat);
        if text[n - 1] == 10u8 {
            before.push(n as usize)
        } else {
            before
        }
    }
}

/// The number of leading entries of `lines` that do not exceed `idx`: with
/// `lines` in rising order, the number of the line that holds offset `idx`.
pub open spec fn line_of(lines: Seq<usize>, idx: usize) -> nat
    decreases lines.len(),
{
    if lines.len() == 0 || lines[0] > idx {
        0
    } else {
        1 + line_of(lines.skip(1), idx)
    }
}

/// The position of offset `idx` in a text whose later lines begin at
/// `lines`: its line, and its distance from where that line begins.
pub open spec fn pos_of(lines: Seq<usize>, idx: usize) -> Position {
    let line = line_of(lines, idx);
    Position {
        line: line as usize,
        character: if line == 0 {
            idx
        } else {
            (idx - lines[line - 1]) as usize
        },
    }
}

/// Counting stops at the first entry that exceeds `idx`.
pub proof fn lemma_line_of_stop(lines: Seq<usize>, idx: usize, k: int)
    requires
        0 <= k <= lines.len(),
        forall|i: int| 0 <= i < k ==> lines[i] <= idx,
        k < lines.len() ==> lines[k] > idx,
    ensures
        line_of(lines, idx) == k,
    decreases lines.len(),
{
    if lines.len() == 0 || lines[0] > idx {
    } else {
        let rest = lines.skip(1);
        assert forall|i: int| 0 <= i < k - 1 implies rest[i] <= idx by {
            assert(rest[i] == lines[i + 1]);
        }
        if k < lines.len() {
            assert(rest[k - 1] == lines[k]);
        }
        lemma_line_of_stop(rest, idx, k - 1);
    }
}

/// A text together with the offsets at which its lines begin.
pub struct LinedString {
    s: String,
    lines: Vec<usize>,
}

impl LinedString {
    /// The text.
    pub closed spec fn text(&self) -> Seq<char> {
        self.s@
    }

    /// The offsets at which the lines after the first begin.
    pub closed spec fn lines(&self) -> Seq<usize> {
        self.lines@
    }

    /// The lines are those of the text.
    pub open spec fn wf(&self) -> bool {
        self.lines() == line_starts(encode_utf8(self.text()), encode_utf8(self.text()).len())
    }

    /// The text `s` with its lines found.
    pub fn new(s: String) -> (r: LinedString)
        ensures
            r.text() == s@,
            r.wf(),
    {
        let mut lines: Vec<usize> = Vec::new();
        let bytes = s.as_str().as_bytes();
        let mut i: usize = 0;
        while i < bytes.len()
            invariant
                i <= bytes.len(),
                lines@ == line_starts(bytes@, i as nat),
            decreases bytes.len() - i,
        {
            if bytes[i] == 10 {
                lines.push(i + 1);
            }
            i += 1;
        }
        LinedString { s, lines }
    }

    /// The line and column of the byte offset `idx`.
    pub fn to_pos(&self, idx: usize) -> (r: Position)
        ensures
            r == pos_of(self.lines(), idx),
    {
        let mut line: usize = 0;
        while line < self.lines.len() && self.lines[line] <= idx
            invariant
                line <= self.lines.len(),
                forall|i: int| 0 <= i < line ==> self.lines@[i] <= idx,
            decreases self.lines.len() - line,
        {
            line += 1;
        }
        proof {
            lemma_line_of_stop(self.lines@, idx, line as int);
        }
        let start: usize = if line == 0 {
            0
        } else {
            self.lines[line - 1]
        };
        Position { line, character: idx - start }
    }

    /// The range of the span `s`.
    pub fn to_range(&self, s: Span) -> (r: Range)
        ensures
            r == (Range { start: pos_of(self.lines(), s.start), end: pos_of(self.lines(), s.end) }),
    {
        Range { start: self.to_pos(s.start), end: self.to_pos(s.end) }
    }

    /// The location of the span `fs` of another file, whose lines are taken
    /// to be those of this text.
    pub fn to_loc(&self, fs: &FileSpan) -> (r: Location)
        ensures
            r.uri == fs.file.url,
            r.range == (Range {
                start: pos_of(self.lines(), fs.span.start),
                end: pos_of(self.lines(), fs.span.end),
            }),
    {
        Location { uri: fs.file.url.clone(), range: self.to_range(fs.span) }
    }
}

} // verus!
