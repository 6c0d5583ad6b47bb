//! An immutable snapshot of a text document, addressed by byte offsets.
//!
//! The snapshot is the view of a document that edit resolution works on: it
//! never changes, so any number of resolutions may read it at once. Positions
//! are byte offsets into its UTF-8 text; lines end at a line feed.

use std::ops::Range;
use vstd::prelude::*;
use vstd::string::StringSliceAdditionalSpecFns;
use vstd::string::StrSliceExecFns;
use vstd::utf8::is_continuation_byte;

verus! {

/// The line feed that ends a line.
pub const LINE_FEED: u8 = 0x0A;

/// Whether a byte is ASCII whitespace: tab, line feed, form feed, carriage
/// return or space.
pub open spec fn is_ascii_whitespace(byte: u8) -> bool {
    byte == 0x09 || byte == 0x0A || byte == 0x0C || byte == 0x0D || byte == 0x20
}

/// Whether a byte is ASCII whitespace.
pub fn ascii_whitespace(byte: u8) -> (answer: bool)
    ensures
        answer == is_ascii_whitespace(byte),
{
    byte == 0x09 || byte == 0x0A || byte == 0x0C || byte == 0x0D || byte == 0x20
}

/// Whether a character may begin at `offset`: at either end of the text, and
/// wherever the byte is not a UTF-8 continuation byte.
pub open spec fn is_char_start(text: Seq<u8>, offset: int) -> bool {
    offset <= 0 || offset >= text.len() || !is_continuation_byte(text[offset])
}

/// The nearest character start at or before `offset`; the end of the text
/// for an offset beyond it.
pub open spec fn clip_left(text: Seq<u8>, offset: int) -> int
    decreases offset,
{
    if offset >= text.len() {
        text.len() as int
    } else if is_char_start(text, offset) {
        offset
    } else {
        clip_left(text, offset - 1)
    }
}

/// The nearest character start at or after `offset`; the end of the text for
/// an offset beyond it.
pub open spec fn clip_right(text: Seq<u8>, offset: int) -> int
    decreases text.len() - offset,
{
    if offset >= text.len() {
        text.len() as int
    } else if is_char_start(text, offset) {
        offset
    } else {
        clip_right(text, offset + 1)
    }
}

/// Where the line that holds `offset` begins: just behind the last line feed
/// before `offset`, or at the start of the text.
pub open spec fn line_start(text: Seq<u8>, offset: int) -> int
    decreases offset,
{
    if offset <= 0 {
        0
    } else if offset > text.len() {
        line_start(text, offset - 1)
    } else if text[offset - 1] == LINE_FEED {
        offset
    } else {
        line_start(text, offset - 1)
    }
}

/// Where the line that holds `offset` ends: at the first line feed at or
/// behind `offset`, or at the end of the text.
pub open spec fn line_end(text: Seq<u8>, offset: int) -> int
    decreases text.len() - offset,
{
    if offset >= text.len() {
        text.len() as int
    } else if offset >= 0 && text[offset] == LINE_FEED {
        offset
    } else {
        line_end(text, offset + 1)
    }
}

/// An offset widened to the end of its line, unless it already stands at the
/// start of a line.
pub open spec fn snap_end(text: Seq<u8>, offset: int) -> int {
    if line_start(text, offset) < offset {
        line_end(text, offset)
    } else {
        offset
    }
}

/// The number of the line that holds `offset`, counting from 0: the number
/// of line feeds before `offset`.
pub open spec fn row_of(text: Seq<u8>, offset: int) -> int
    decreases offset,
{
    if offset <= 0 {
        0
    } else if offset > text.len() {
        row_of(text, offset - 1)
    } else if text[offset - 1] == LINE_FEED {
        row_of(text, offset - 1) + 1
    } else {
        row_of(text, offset - 1)
    }
}

/// The column of an offset: its distance from the start of its line. An
/// offset beyond the text counts as its end.
pub open spec fn column_of(text: Seq<u8>, offset: int) -> int {
    if offset <= text.len() {
        offset - line_start(text, offset)
    } else {
        text.len() - line_start(text, offset)
    }
}

/// Where line number `row` begins; the end of the text for a row beyond the
/// last.
pub open spec fn row_start(text: Seq<u8>, row: int) -> int
    decreases row,
{
    if row <= 0 {
        0
    } else {
        let end = line_end(text, row_start(text, row - 1));
        if end < text.len() {
            end + 1
        } else {
            text.len() as int
        }
    }
}

/// The offset of a row and a column: the column counted from the start of
/// the row, but no further than the end of the row's line.
pub open spec fn offset_of_point(text: Seq<u8>, row: int, column: int) -> int {
    let start = row_start(text, row);
    let end = line_end(text, start);
    if start + column <= end {
        start + column
    } else {
        end
    }
}

/// A row begins inside the text.
pub proof fn lemma_row_start_bounds(text: Seq<u8>, row: int)
    ensures
        0 <= row_start(text, row) <= text.len(),
    decreases row,
{
    if row > 0 {
        lemma_row_start_bounds(text, row - 1);
        lemma_line_end(text, row_start(text, row - 1));
    }
}

/// Behind the last row, every row begins at the end of the text.
pub proof fn lemma_rows_beyond_the_last(text: Seq<u8>, row: int, later: int)
    requires
        0 <= row <= later,
        row_start(text, row) == text.len(),
    ensures
        row_start(text, later) == text.len(),
    decreases later - row,
{
    if row < later {
        lemma_rows_beyond_the_last(text, row, later - 1);
    }
}

/// The line that holds an offset ends where the line ends that begins at
/// that line's start.
pub proof fn lemma_line_end_of_line_start(text: Seq<u8>, offset: int)
    requires
        0 <= offset <= text.len(),
    ensures
        line_end(text, line_start(text, offset)) == line_end(text, offset),
    decreases offset,
{
    if offset > 0 && text[offset - 1] != LINE_FEED {
        lemma_line_end_of_line_start(text, offset - 1);
    }
}

/// The row of an offset begins where the offset's line begins.
pub proof fn lemma_row_start_of_row(text: Seq<u8>, offset: int)
    requires
        0 <= offset <= text.len(),
    ensures
        0 <= row_of(text, offset) <= offset,
        row_start(text, row_of(text, offset)) == line_start(text, offset),
    decreases offset,
{
    if offset > 0 {
        lemma_row_start_of_row(text, offset - 1);
        if text[offset - 1] == LINE_FEED {
            lemma_line_end_of_line_start(text, offset - 1);
        }
    }
}

/// Row and column name the offset they were taken from.
pub proof fn lemma_point_of_offset(text: Seq<u8>, offset: int)
    requires
        0 <= offset <= text.len(),
    ensures
        offset_of_point(text, row_of(text, offset), column_of(text, offset)) == offset,
{
    lemma_row_start_of_row(text, offset);
    lemma_line_end_of_line_start(text, offset);
    lemma_line_end(text, offset);
    lemma_line_start(text, offset);
}

/// The text in which the stretch from `start` to `end` has given way to
/// `new_text`.
pub open spec fn replaced(text: Seq<u8>, start: int, end: int, new_text: Seq<u8>) -> Seq<u8> {
    text.subrange(0, start) + new_text + text.subrange(end, text.len() as int)
}

/// `clip_left` never moves right and stays inside the text.
pub proof fn lemma_clip_left_bounds(text: Seq<u8>, offset: int)
    requires
        0 <= offset,
    ensures
        0 <= clip_left(text, offset) <= offset,
        clip_left(text, offset) <= text.len(),
        is_char_start(text, clip_left(text, offset)),
    decreases offset,
{
    if offset < text.len() && !is_char_start(text, offset) {
        lemma_clip_left_bounds(text, offset - 1);
    }
}

/// `clip_right` never moves an offset inside the text to the left and stays
/// inside the text.
pub proof fn lemma_clip_right_bounds(text: Seq<u8>, offset: int)
    requires
        0 <= offset <= text.len(),
    ensures
        offset <= clip_right(text, offset) <= text.len(),
        is_char_start(text, clip_right(text, offset)),
    decreases text.len() - offset,
{
    if offset < text.len() && !is_char_start(text, offset) {
        lemma_clip_right_bounds(text, offset + 1);
    }
}

/// An offset beyond the text is on the text's last line, behind all of its
/// line feeds.
pub proof fn lemma_beyond_the_text(text: Seq<u8>, offset: int)
    requires
        text.len() <= offset,
    ensures
        line_start(text, offset) == line_start(text, text.len() as int),
        row_of(text, offset) == row_of(text, text.len() as int),
        line_end(text, offset) == text.len(),
    decreases offset,
{
    if offset > text.len() {
        lemma_beyond_the_text(text, offset - 1);
    }
}

/// A line begins at or before every offset of it, at the start of the text or
/// just behind a line feed, and holds no line feed up to that offset.
pub proof fn lemma_line_start(text: Seq<u8>, offset: int)
    requires
        0 <= offset <= text.len(),
    ensures
        0 <= line_start(text, offset) <= offset,
        line_start(text, offset) == 0 || text[line_start(text, offset) - 1] == LINE_FEED,
        forall|i: int| line_start(text, offset) <= i < offset ==> text[i] != LINE_FEED,
    decreases offset,
{
    if offset > 0 && text[offset - 1] != LINE_FEED {
        lemma_line_start(text, offset - 1);
    }
}

/// A line ends at or behind every offset of it, at the end of the text or at
/// a line feed, and holds no line feed from that offset on.
pub proof fn lemma_line_end(text: Seq<u8>, offset: int)
    requires
        0 <= offset <= text.len(),
    ensures
        offset <= line_end(text, offset) <= text.len(),
        line_end(text, offset) == text.len() || text[line_end(text, offset)] == LINE_FEED,
        forall|i: int| offset <= i < line_end(text, offset) ==> text[i] != LINE_FEED,
    decreases text.len() - offset,
{
    if offset < text.len() && text[offset] != LINE_FEED {
        lemma_line_end(text, offset + 1);
    }
}

/// The side an anchor keeps to when text is inserted at its position.
#[derive(Clone, Copy, Debug, PartialEq, Eq, Structural)]
pub enum Bias {
    Left,
    Right,
}

/// A position in a document that outlives edits made elsewhere in it: a byte
/// offset into the snapshot it was made from, and the side it keeps to.
#[derive(Clone, Copy, Debug, PartialEq, Eq, Structural)]
pub struct Anchor {
    pub offset: usize,
    pub bias: Bias,
}

/// A position in a document by line and column, both counted from 0; the
/// column counts bytes.
#[derive(Clone, Copy, Debug, PartialEq, Eq, Structural)]
pub struct Point {
    pub row: usize,
    pub column: usize,
}

/// The text of a document at one point in time.
#[derive(Debug, PartialEq, Eq)]
pub struct DocumentSnapshot {
    text: Vec<u8>,
}

impl View for DocumentSnapshot {
    type V = Seq<u8>;

    closed spec fn view(&self) -> Seq<u8> {
        self.text@
    }
}

impl DocumentSnapshot {
    /// A snapshot of the given text.
    pub fn new(text: &str) -> (snapshot: Self)
        ensures
            snapshot@ == text.spec_bytes(),
    {
        DocumentSnapshot { text: text.as_bytes_vec() }
    }

    /// A snapshot of text given as bytes.
    pub fn from_bytes(text: Vec<u8>) -> (snapshot: Self)
        ensures
            snapshot@ == text@,
    {
        DocumentSnapshot { text }
    }

    /// The length of the text in bytes.
    pub fn len(&self) -> (len: usize)
        ensures
            len == self@.len(),
    {
        self.text.len()
    }

    /// The bytes of the text.
    pub fn as_bytes(&self) -> (bytes: &[u8])
        ensures
            bytes@ == self@,
    {
        self.text.as_slice()
    }

    /// Moves an offset that falls inside a character to the start of that
    /// character (`Bias::Left`) or of the next one (`Bias::Right`), and an
    /// offset beyond the text to its end.
    pub fn clip_offset(&self, offset: usize, bias: Bias) -> (clipped: usize)
        ensures
            clipped == match bias {
                Bias::Left => clip_left(self@, offset as int),
                Bias::Right => clip_right(self@, offset as int),
            },
            clipped <= self@.len(),
    {
        let len: usize = self.text.len();
        if offset >= len {
            return len;
        }
        let mut current: usize = offset;
        match bias {
            Bias::Left => {
                proof {
                    lemma_clip_left_bounds(self@, offset as int);
                }
                while current > 0 && is_continuation(self.text[current])
                    invariant
                        current <= offset < len,
                        len == self.text@.len(),
                        clip_left(self@, current as int) == clip_left(self@, offset as int),
                    decreases current,
                {
                    current = current - 1;
                }
                current
            },
            Bias::Right => {
                proof {
                    lemma_clip_right_bounds(self@, offset as int);
                }
                while current > 0 && current < len && is_continuation(self.text[current])
                    invariant
                        offset <= current <= len,
                        len == self.text@.len(),
                        clip_right(self@, current as int) == clip_right(self@, offset as int),
                    decreases len - current,
                {
                    current = current + 1;
                }
                current
            },
        }
    }

    /// The offset at which the line holding `offset` begins. An offset
    /// beyond the text counts as its end.
    pub fn line_start(&self, offset: usize) -> (start: usize)
        ensures
            start == line_start(self@, offset as int),
            start <= offset,
            start <= self@.len(),
    {
        let len: usize = self.text.len();
        let mut current: usize = if offset > len { len } else { offset };
        proof {
            if offset > len {
                lemma_beyond_the_text(self@, offset as int);
            }
        }
        while current > 0 && self.text[current - 1] != LINE_FEED
            invariant
                current <= offset,
                current <= self.text@.len(),
                line_start(self@, current as int) == line_start(self@, offset as int),
            decreases current,
        {
            current = current - 1;
        }
        current
    }

    /// The offset at which the line holding `offset` ends, not counting its
    /// line feed. An offset beyond the text counts as its end.
    pub fn line_end(&self, offset: usize) -> (end: usize)
        ensures
            end == line_end(self@, offset as int),
            end <= self@.len(),
            offset <= self@.len() ==> offset <= end,
    {
        let len: usize = self.text.len();
        if offset >= len {
            return len;
        }
        let mut current: usize = offset;
        while current < len && self.text[current] != LINE_FEED
            invariant
                offset <= current <= len,
                len == self.text@.len(),
                line_end(self@, current as int) == line_end(self@, offset as int),
            decreases len - current,
        {
            current = current + 1;
        }
        current
    }

    /// The offset at which a row begins; the end of the text for a row
    /// beyond the last.
    pub fn row_start(&self, row: usize) -> (start: usize)
        ensures
            start == row_start(self@, row as int),
            start <= self@.len(),
    {
        let len: usize = self.text.len();
        let mut start: usize = 0;
        let mut current: usize = 0;
        while current < row && start < len
            invariant
                current <= row,
                len == self.text@.len(),
                start <= len,
                start == row_start(self@, current as int),
            decreases row - current,
        {
            let end: usize = self.line_end(start);
            start = if end < len { end + 1 } else { len };
            current = current + 1;
        }
        proof {
            if current < row {
                lemma_rows_beyond_the_last(self@, current as int, row as int);
            }
        }
        start
    }

    /// The row and column of an offset. An offset beyond the text counts as
    /// its end.
    pub fn offset_to_point(&self, offset: usize) -> (point: Point)
        ensures
            point.row == row_of(self@, offset as int),
            point.column == column_of(self@, offset as int),
    {
        let len: usize = self.text.len();
        proof {
            if offset > len {
                lemma_beyond_the_text(self@, offset as int);
            }
        }
        let offset: usize = if offset > len { len } else { offset };
        let mut row: usize = 0;
        let mut index: usize = 0;
        while index < offset
            invariant
                index <= offset <= self.text@.len(),
                row == row_of(self@, index as int),
                row <= index,
            decreases offset - index,
        {
            if self.text[index] == LINE_FEED {
                row = row + 1;
            }
            index = index + 1;
        }
        Point { row, column: offset - self.line_start(offset) }
    }

    /// The offset of a row and column. A column beyond the end of its line
    /// gives the end of that line.
    pub fn point_to_offset(&self, point: Point) -> (offset: usize)
        ensures
            offset == offset_of_point(self@, point.row as int, point.column as int),
            offset <= self@.len(),
    {
        let start: usize = self.row_start(point.row);
        let end: usize = self.line_end(start);
        if point.column <= end - start {
            start + point.column
        } else {
            end
        }
    }

    /// The length of a row's line, not counting its line feed.
    pub fn line_len(&self, row: usize) -> (len: usize)
        ensures
            len == line_end(self@, row_start(self@, row as int)) - row_start(self@, row as int),
    {
        let start: usize = self.row_start(row);
        self.line_end(start) - start
    }

    /// The text between two offsets.
    pub fn text_for_range(&self, start: usize, end: usize) -> (text: Vec<u8>)
        requires
            start <= end <= self@.len(),
        ensures
            text@ == self@.subrange(start as int, end as int),
    {
        let mut text: Vec<u8> = Vec::new();
        let mut index: usize = start;
        while index < end
            invariant
                start <= index <= end <= self.text@.len(),
                text@ == self.text@.subrange(start as int, index as int),
            decreases end - index,
        {
            text.push(self.text[index]);
            proof {
                assert(self.text@.subrange(start as int, index + 1) =~= self.text@.subrange(
                    start as int,
                    index as int,
                ).push(self.text@[index as int]));
            }
            index = index + 1;
        }
        text
    }

    /// The snapshot of the document after the text between two anchors has
    /// been replaced by `new_text`; `None` where the anchors do not mark a
    /// stretch of this snapshot.
    pub fn apply_edit(&self, range: &Range<Anchor>, new_text: &[u8]) -> (edited: Option<Self>)
        ensures
            match edited {
                Some(edited) => range.start.offset <= range.end.offset <= self@.len() && edited@
                    == replaced(
                    self@,
                    range.start.offset as int,
                    range.end.offset as int,
                    new_text@,
                ),
                None => !(range.start.offset <= range.end.offset <= self@.len()),
            },
    {
        let start: usize = range.start.offset;
        let end: usize = range.end.offset;
        let len: usize = self.text.len();
        if !(start <= end && end <= len) {
            return None;
        }
        let mut text: Vec<u8> = self.text_for_range(0, start);
        let mut index: usize = 0;
        while index < new_text.len()
            invariant
                index <= new_text@.len(),
                text@ == self.text@.subrange(0, start as int) + new_text@.subrange(0, index as int),
            decreases new_text@.len() - index,
        {
            text.push(new_text[index]);
            proof {
                assert(new_text@.subrange(0, index + 1) =~= new_text@.subrange(0, index as int).push(
                    new_text@[index as int],
                ));
                assert(text@ =~= self.text@.subrange(0, start as int) + new_text@.subrange(
                    0,
                    index + 1,
                ));
            }
            index = index + 1;
        }
        let mut index: usize = end;
        while index < len
            invariant
                end <= index <= len,
                len == self.text@.len(),
                text@ == self.text@.subrange(0, start as int) + new_text@ + self.text@.subrange(
                    end as int,
                    index as int,
                ),
            decreases len - index,
        {
            text.push(self.text[index]);
            proof {
                assert(self.text@.subrange(end as int, index + 1) =~= self.text@.subrange(
                    end as int,
                    index as int,
                ).push(self.text@[index as int]));
                assert(text@ =~= self.text@.subrange(0, start as int) + new_text@
                    + self.text@.subrange(end as int, index + 1));
            }
            index = index + 1;
        }
        Some(DocumentSnapshot { text })
    }

    /// An anchor at `offset` that stays behind text inserted there.
    pub fn anchor_after(&self, offset: usize) -> (anchor: Anchor)
        ensures
            anchor == (Anchor { offset, bias: Bias::Right }),
    {
        Anchor { offset, bias: Bias::Right }
    }

    /// An anchor at `offset` that stays in front of text inserted there.
    pub fn anchor_before(&self, offset: usize) -> (anchor: Anchor)
        ensures
            anchor == (Anchor { offset, bias: Bias::Left }),
    {
        Anchor { offset, bias: Bias::Left }
    }
}

/// Whether a byte continues a UTF-8 character begun by an earlier byte.
pub fn is_continuation(byte: u8) -> (answer: bool)
    ensures
        answer == is_continuation_byte(byte),
{
    0x80 <= byte && byte <= 0xbf
}

} // verus!
