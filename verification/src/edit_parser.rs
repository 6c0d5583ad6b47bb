//! Recognition of search/replace edit blocks in streamed model output.
//!
//! A model describes each change as a block of lines:
//!
//! ```text
//! <<<<<<< SEARCH
//! the text to look for
//! =======
//! the text to put in its place
//! >>>>>>> REPLACE
//! ```
//!
//! The parser reads the output as it arrives, in chunks of any size, and
//! hands out each block as soon as the line that closes it is complete. Where
//! the chunks are cut makes no difference to what it hands out. Text outside
//! blocks is passed over, and a block that the stream leaves unclosed is
//! never handed out.

use crate::text::LINE_FEED;
use smallvec::SmallVec;
use vstd::prelude::*;
use vstd::string::StringSliceAdditionalSpecFns;
use vstd::utf8::is_ascii_chars_encode_utf8;

verus! {

/// One intended change: the text to look for and the text to put in its
/// place, exactly as the model wrote them.
#[derive(Debug, PartialEq, Eq)]
pub struct EditBlock {
    pub old_text: Vec<u8>,
    pub new_text: Vec<u8>,
}

/// What an edit block says, as plain byte sequences.
pub struct EditBlockView {
    pub old_text: Seq<u8>,
    pub new_text: Seq<u8>,
}

impl View for EditBlock {
    type V = EditBlockView;

    open spec fn view(&self) -> EditBlockView {
        EditBlockView { old_text: self.old_text@, new_text: self.new_text@ }
    }
}

/// The views of a sequence of edit blocks, in order.
pub open spec fn block_views(blocks: Seq<EditBlock>) -> Seq<EditBlockView> {
    blocks.map_values(|block: EditBlock| block@)
}

/// The line that opens a block and its search text.
pub open spec fn search_marker() -> Seq<u8> {
    "<<<<<<< SEARCH".spec_bytes()
}

/// The line that parts the search text from the replacement.
pub open spec fn divider_marker() -> Seq<u8> {
    "=======".spec_bytes()
}

/// The line that closes the replacement and the block.
pub open spec fn replace_marker() -> Seq<u8> {
    ">>>>>>> REPLACE".spec_bytes()
}

/// The part of a block that the parser is reading.
#[derive(Clone, Copy, Debug, PartialEq, Eq, Structural)]
pub enum ParserPhase {
    /// Outside any block.
    Pending,
    /// Behind the opening line, in the search text.
    WithinSearch,
    /// Behind the divider, in the replacement.
    WithinReplace,
}

/// What the parser has gathered from the complete lines read so far: the
/// phase, and the lines of the open block's two texts, each with its line
/// feed.
pub struct ScanState {
    pub phase: ParserPhase,
    pub old_text: Seq<u8>,
    pub new_text: Seq<u8>,
}

/// The state of a parser: what it gathered from complete lines, and the
/// bytes of the line that is still incomplete.
pub struct ParserState {
    pub scan: ScanState,
    pub line: Seq<u8>,
}

/// Whether a line is still open: it holds no line feed.
pub open spec fn is_open_line(line: Seq<u8>) -> bool {
    forall|i: int| 0 <= i < line.len() ==> line[i] != LINE_FEED
}

impl ParserState {
    /// Whether this is a state that a parser can be in: its pending line is
    /// open.
    pub open spec fn well_formed(self) -> bool {
        is_open_line(self.line)
    }
}

/// The state before any line: outside any block, with nothing gathered.
pub open spec fn initial_scan() -> ScanState {
    ScanState { phase: ParserPhase::Pending, old_text: Seq::empty(), new_text: Seq::empty() }
}

/// The state of a parser that has read nothing.
pub open spec fn initial_state() -> ParserState {
    ParserState { scan: initial_scan(), line: Seq::empty() }
}

/// A gathered text without the line feed of its last line.
pub open spec fn without_final_line_feed(text: Seq<u8>) -> Seq<u8> {
    if text.len() > 0 {
        text.drop_last()
    } else {
        text
    }
}

/// The effect of one complete line, given without its line feed: the state
/// behind it and the block it closes, if it closes one.
pub open spec fn take_line(scan: ScanState, line: Seq<u8>) -> (ScanState, Option<EditBlockView>) {
    match scan.phase {
        ParserPhase::Pending => if line == search_marker() {
            (
                ScanState {
                    phase: ParserPhase::WithinSearch,
                    old_text: Seq::empty(),
                    new_text: Seq::empty(),
                },
                None,
            )
        } else {
            (scan, None)
        },
        ParserPhase::WithinSearch => if line == divider_marker() {
            (ScanState { phase: ParserPhase::WithinReplace, ..scan }, None)
        } else {
            (ScanState { old_text: scan.old_text + line.push(LINE_FEED), ..scan }, None)
        },
        ParserPhase::WithinReplace => if line == replace_marker() {
            (
                initial_scan(),
                Some(
                    EditBlockView {
                        old_text: without_final_line_feed(scan.old_text),
                        new_text: without_final_line_feed(scan.new_text),
                    },
                ),
            )
        } else {
            (ScanState { new_text: scan.new_text + line.push(LINE_FEED), ..scan }, None)
        },
    }
}

/// The effect of a run of complete lines: the state behind them and the
/// blocks they close, in order.
pub open spec fn take_lines(scan: ScanState, lines: Seq<Seq<u8>>) -> (
    ScanState,
    Seq<EditBlockView>,
)
    decreases lines.len(),
{
    if lines.len() == 0 {
        (scan, Seq::empty())
    } else {
        let (before, blocks) = take_lines(scan, lines.drop_last());
        let (after, block) = take_line(before, lines.last());
        (
            after,
            match block {
                Some(block) => blocks.push(block),
                None => blocks,
            },
        )
    }
}

/// The bytes behind the last line feed of `input`: the line that is not yet
/// complete.
pub open spec fn pending_line(input: Seq<u8>) -> Seq<u8>
    decreases input.len(),
{
    if input.len() == 0 {
        Seq::empty()
    } else if input.last() == LINE_FEED {
        Seq::empty()
    } else {
        pending_line(input.drop_last()).push(input.last())
    }
}

/// The lines of `input` that a line feed ends, each without its line feed.
pub open spec fn complete_lines(input: Seq<u8>) -> Seq<Seq<u8>>
    decreases input.len(),
{
    if input.len() == 0 {
        Seq::empty()
    } else if input.last() == LINE_FEED {
        complete_lines(input.drop_last()).push(pending_line(input.drop_last()))
    } else {
        complete_lines(input.drop_last())
    }
}

/// The effect of reading `chunk` in the given state: the state behind it and
/// the blocks that it completes. The chunk continues the incomplete line.
pub open spec fn after_chunk(state: ParserState, chunk: Seq<u8>) -> (ParserState, Seq<EditBlockView>) {
    let input = state.line + chunk;
    let (scan, blocks) = take_lines(state.scan, complete_lines(input));
    (ParserState { scan, line: pending_line(input) }, blocks)
}

/// The edit blocks that a whole response holds.
pub open spec fn parsed_blocks(response: Seq<u8>) -> Seq<EditBlockView> {
    after_chunk(initial_state(), response).1
}

/// The effect of reading several chunks one after the other.
pub open spec fn after_chunks(state: ParserState, chunks: Seq<Seq<u8>>) -> (
    ParserState,
    Seq<EditBlockView>,
)
    decreases chunks.len(),
{
    if chunks.len() == 0 {
        (state, Seq::empty())
    } else {
        let (before, blocks) = after_chunks(state, chunks.drop_last());
        let (after, more) = after_chunk(before, chunks.last());
        (after, blocks + more)
    }
}

/// The chunks joined into one, in order.
pub open spec fn joined(chunks: Seq<Seq<u8>>) -> Seq<u8>
    decreases chunks.len(),
{
    if chunks.len() == 0 {
        Seq::empty()
    } else {
        joined(chunks.drop_last()) + chunks.last()
    }
}


/// The effect of one more byte behind a chunk that was read: a line feed
/// completes the pending line, any other byte extends it.
pub proof fn lemma_after_chunk_push(state: ParserState, chunk: Seq<u8>, byte: u8)
    ensures
        after_chunk(state, chunk.push(byte)) == ({
            let (before, blocks) = after_chunk(state, chunk);
            if byte == LINE_FEED {
                let (scan, block) = take_line(before.scan, before.line);
                (
                    ParserState { scan, line: Seq::empty() },
                    match block {
                        Some(block) => blocks.push(block),
                        None => blocks,
                    },
                )
            } else {
                (ParserState { scan: before.scan, line: before.line.push(byte) }, blocks)
            }
        }),
{
    let input = state.line + chunk;
    let longer = state.line + chunk.push(byte);
    assert(longer =~= input.push(byte));
    assert(longer.drop_last() =~= input);
    if byte == LINE_FEED {
        let lines = complete_lines(input);
        let more = lines.push(pending_line(input));
        assert(complete_lines(longer) == more);
        assert(more.drop_last() =~= lines);
    }
}

/// Text without a line feed is all pending: none of it is a complete line.
pub proof fn lemma_no_line_feed(input: Seq<u8>)
    requires
        is_open_line(input),
    ensures
        pending_line(input) == input,
        complete_lines(input) == Seq::<Seq<u8>>::empty(),
    decreases input.len(),
{
    if input.len() > 0 {
        let shorter = input.drop_last();
        assert(is_open_line(shorter)) by {
            assert forall|i: int| 0 <= i < shorter.len() implies shorter[i] != LINE_FEED by {
                assert(shorter[i] == input[i]);
            }
        }
        lemma_no_line_feed(shorter);
        assert(input.last() == input[input.len() - 1]);
        assert(shorter.push(input.last()) =~= input);
    }
}

/// A pending line holds no line feed.
pub proof fn lemma_pending_line_is_open(input: Seq<u8>)
    ensures
        is_open_line(pending_line(input)),
    decreases input.len(),
{
    if input.len() > 0 && input.last() != LINE_FEED {
        lemma_pending_line_is_open(input.drop_last());
        let shorter = pending_line(input.drop_last());
        let line = pending_line(input);
        assert forall|i: int| 0 <= i < line.len() implies line[i] != LINE_FEED by {
            if i < shorter.len() {
                assert(line[i] == shorter[i]);
            }
        }
    }
}

/// Whatever is read, the parser is left in a state it can be in.
pub proof fn lemma_after_chunk_well_formed(state: ParserState, chunk: Seq<u8>)
    ensures
        after_chunk(state, chunk).0.well_formed(),
{
    lemma_pending_line_is_open(state.line + chunk);
}

/// Reading two runs of lines one after the other is reading them as one run.
pub proof fn lemma_take_lines_concat(scan: ScanState, first: Seq<Seq<u8>>, second: Seq<Seq<u8>>)
    ensures
        take_lines(scan, first + second) == ({
            let (middle, blocks) = take_lines(scan, first);
            let (last, more) = take_lines(middle, second);
            (last, blocks + more)
        }),
    decreases second.len(),
{
    let (middle, blocks) = take_lines(scan, first);
    if second.len() == 0 {
        assert(first + second =~= first);
        assert(blocks + Seq::<EditBlockView>::empty() =~= blocks);
    } else {
        lemma_take_lines_concat(scan, first, second.drop_last());
        assert((first + second).drop_last() =~= first + second.drop_last());
        assert((first + second).last() == second.last());
        let (before, some) = take_lines(middle, second.drop_last());
        let (after, block) = take_line(before, second.last());
        match block {
            Some(block) => {
                assert((blocks + some).push(block) =~= blocks + some.push(block));
            },
            None => {},
        }
    }
}

/// The lines of a text in two parts are the lines of the first part, then
/// those of the second part read as a continuation of the first part's
/// pending line; and the same holds of what stays pending.
pub proof fn lemma_lines_of_concat(first: Seq<u8>, second: Seq<u8>)
    ensures
        complete_lines(first + second) == complete_lines(first) + complete_lines(
            pending_line(first) + second,
        ),
        pending_line(first + second) == pending_line(pending_line(first) + second),
    decreases second.len(),
{
    let carried = pending_line(first);
    if second.len() == 0 {
        assert(first + second =~= first);
        assert(carried + second =~= carried);
        lemma_pending_line_is_open(first);
        lemma_no_line_feed(carried);
        assert(complete_lines(first) + Seq::<Seq<u8>>::empty() =~= complete_lines(first));
    } else {
        lemma_lines_of_concat(first, second.drop_last());
        assert((first + second).drop_last() =~= first + second.drop_last());
        assert((carried + second).drop_last() =~= carried + second.drop_last());
        assert((first + second).last() == second.last());
        assert((carried + second).last() == second.last());
        if second.last() == LINE_FEED {
            let lines = complete_lines(carried + second.drop_last());
            let line = pending_line(carried + second.drop_last());
            assert(complete_lines(first).add(lines).push(line) =~= complete_lines(first).add(
                lines.push(line),
            ));
        }
    }
}

/// Where a chunk is cut makes no difference: reading its two parts one after
/// the other leaves the parser in the same state, and hands out the same
/// blocks in the same order, as reading the chunk whole.
pub proof fn lemma_after_chunk_concat(state: ParserState, first: Seq<u8>, second: Seq<u8>)
    ensures
        after_chunk(state, first + second) == ({
            let (middle, blocks) = after_chunk(state, first);
            let (last, more) = after_chunk(middle, second);
            (last, blocks + more)
        }),
{
    let input = state.line + first;
    assert(state.line + (first + second) =~= input + second);
    lemma_lines_of_concat(input, second);
    lemma_take_lines_concat(
        state.scan,
        complete_lines(input),
        complete_lines(pending_line(input) + second),
    );
}

/// An empty chunk changes nothing and hands out nothing.
pub proof fn lemma_after_empty_chunk(state: ParserState)
    requires
        state.well_formed(),
    ensures
        after_chunk(state, Seq::empty()) == (state, Seq::<EditBlockView>::empty()),
{
    assert(state.line + Seq::<u8>::empty() =~= state.line);
    lemma_no_line_feed(state.line);
}

/// Chunk boundaries carry no meaning: reading any number of chunks in order
/// leaves the parser in the same state, and hands out the same blocks in the
/// same order, as reading their concatenation as a single chunk.
pub proof fn lemma_chunking_is_immaterial(state: ParserState, chunks: Seq<Seq<u8>>)
    requires
        state.well_formed(),
    ensures
        after_chunks(state, chunks) == after_chunk(state, joined(chunks)),
    decreases chunks.len(),
{
    if chunks.len() == 0 {
        lemma_after_empty_chunk(state);
    } else {
        lemma_chunking_is_immaterial(state, chunks.drop_last());
        lemma_after_chunk_concat(state, joined(chunks.drop_last()), chunks.last());
    }
}

/// The three marker lines hold no line feed, so each is one line.
pub proof fn lemma_markers_are_lines()
    ensures
        is_open_line(search_marker()),
        is_open_line(divider_marker()),
        is_open_line(replace_marker()),
{
    reveal_strlit("<<<<<<< SEARCH");
    reveal_strlit("=======");
    reveal_strlit(">>>>>>> REPLACE");
    is_ascii_chars_encode_utf8("<<<<<<< SEARCH"@);
    is_ascii_chars_encode_utf8("======="@);
    is_ascii_chars_encode_utf8(">>>>>>> REPLACE"@);
}

/// A text with its lines' line feeds: each of the lines, followed by a line
/// feed.
pub open spec fn lines_joined(lines: Seq<Seq<u8>>) -> Seq<u8>
    decreases lines.len(),
{
    if lines.len() == 0 {
        Seq::empty()
    } else {
        lines_joined(lines.drop_last()) + lines.last().push(LINE_FEED)
    }
}

/// A text is its complete lines, each with its line feed, and then its
/// pending line.
pub proof fn lemma_lines_make_up_text(input: Seq<u8>)
    ensures
        lines_joined(complete_lines(input)) + pending_line(input) == input,
    decreases input.len(),
{
    if input.len() == 0 {
        assert(lines_joined(complete_lines(input)) + pending_line(input) =~= input);
    } else {
        let shorter = input.drop_last();
        lemma_lines_make_up_text(shorter);
        assert(shorter.push(input.last()) =~= input);
        if input.last() == LINE_FEED {
            let lines = complete_lines(input);
            assert(lines.drop_last() =~= complete_lines(shorter));
            assert(lines_joined(lines) + pending_line(input) =~= (lines_joined(
                complete_lines(shorter),
            ) + pending_line(shorter)).push(LINE_FEED));
        } else {
            assert(lines_joined(complete_lines(input)) + pending_line(input) =~= (lines_joined(
                complete_lines(shorter),
            ) + pending_line(shorter)).push(input.last()));
        }
    }
}

/// A line on its own: an open line and its line feed are one complete line
/// with nothing pending behind it.
pub proof fn lemma_single_line(line: Seq<u8>)
    requires
        is_open_line(line),
    ensures
        complete_lines(line.push(LINE_FEED)) == seq![line],
        pending_line(line.push(LINE_FEED)) == Seq::<u8>::empty(),
{
    lemma_no_line_feed(line);
    assert(line.push(LINE_FEED).drop_last() =~= line);
    assert(complete_lines(line.push(LINE_FEED)) =~= seq![line]);
}

/// Reading one line is taking that line.
pub proof fn lemma_take_single_line(scan: ScanState, line: Seq<u8>)
    ensures
        take_lines(scan, seq![line]) == (
            take_line(scan, line).0,
            match take_line(scan, line).1 {
                Some(block) => seq![block],
                None => Seq::<EditBlockView>::empty(),
            },
        ),
{
    let lines = seq![line];
    assert(lines.drop_last() =~= Seq::<Seq<u8>>::empty());
    assert(take_lines(scan, lines.drop_last()) == (scan, Seq::<EditBlockView>::empty()));
    assert(lines.last() == line);
    match take_line(scan, line).1 {
        Some(block) => {
            assert(Seq::<EditBlockView>::empty().push(block) =~= seq![block]);
        },
        None => {},
    }
}

/// Inside the search text, lines that are not the divider are gathered as
/// they are, and close no block.
pub proof fn lemma_search_lines_are_gathered(scan: ScanState, lines: Seq<Seq<u8>>)
    requires
        scan.phase == ParserPhase::WithinSearch,
        forall|i: int| 0 <= i < lines.len() ==> #[trigger] lines[i] != divider_marker(),
    ensures
        take_lines(scan, lines) == (
            ScanState { old_text: scan.old_text + lines_joined(lines), ..scan },
            Seq::<EditBlockView>::empty(),
        ),
    decreases lines.len(),
{
    if lines.len() == 0 {
        assert(scan.old_text + lines_joined(lines) =~= scan.old_text);
    } else {
        let earlier = lines.drop_last();
        assert forall|i: int| 0 <= i < earlier.len() implies #[trigger] earlier[i]
            != divider_marker() by {
            assert(earlier[i] == lines[i]);
        }
        lemma_search_lines_are_gathered(scan, earlier);
        assert(lines.last() == lines[lines.len() - 1]);
        assert(scan.old_text + lines_joined(earlier) + lines.last().push(LINE_FEED)
            =~= scan.old_text + lines_joined(lines));
    }
}

/// Inside the replacement, lines that are not the closing line are gathered
/// as they are, and close no block.
pub proof fn lemma_replace_lines_are_gathered(scan: ScanState, lines: Seq<Seq<u8>>)
    requires
        scan.phase == ParserPhase::WithinReplace,
        forall|i: int| 0 <= i < lines.len() ==> #[trigger] lines[i] != replace_marker(),
    ensures
        take_lines(scan, lines) == (
            ScanState { new_text: scan.new_text + lines_joined(lines), ..scan },
            Seq::<EditBlockView>::empty(),
        ),
    decreases lines.len(),
{
    if lines.len() == 0 {
        assert(scan.new_text + lines_joined(lines) =~= scan.new_text);
    } else {
        let earlier = lines.drop_last();
        assert forall|i: int| 0 <= i < earlier.len() implies #[trigger] earlier[i]
            != replace_marker() by {
            assert(earlier[i] == lines[i]);
        }
        lemma_replace_lines_are_gathered(scan, earlier);
        assert(lines.last() == lines[lines.len() - 1]);
        assert(scan.new_text + lines_joined(earlier) + lines.last().push(LINE_FEED)
            =~= scan.new_text + lines_joined(lines));
    }
}

/// An edit block written out as the model is asked to write it: the opening
/// line, the search text, the divider, the replacement and the closing line,
/// each ended by a line feed.
pub open spec fn written_block(block: EditBlockView) -> Seq<u8> {
    search_marker().push(LINE_FEED) + block.old_text.push(LINE_FEED) + divider_marker().push(
        LINE_FEED,
    ) + block.new_text.push(LINE_FEED) + replace_marker().push(LINE_FEED)
}

/// Whether a block can be written out without being mistaken: no line of
/// its search text is the divider, and no line of its replacement is the
/// closing line.
pub open spec fn is_writable(block: EditBlockView) -> bool {
    &&& forall|i: int|
        0 <= i < complete_lines(block.old_text.push(LINE_FEED)).len() ==> #[trigger] complete_lines(
            block.old_text.push(LINE_FEED),
        )[i] != divider_marker()
    &&& forall|i: int|
        0 <= i < complete_lines(block.new_text.push(LINE_FEED)).len() ==> #[trigger] complete_lines(
            block.new_text.push(LINE_FEED),
        )[i] != replace_marker()
}

/// The parser reads back what was written: outside any block and at the
/// start of a line, a written block is handed out as it was, and the parser
/// is again outside any block and at the start of a line.
pub proof fn lemma_written_block_is_parsed(block: EditBlockView)
    requires
        is_writable(block),
    ensures
        after_chunk(initial_state(), written_block(block)) == (initial_state(), seq![block]),
{
    lemma_markers_are_lines();
    let opening = search_marker().push(LINE_FEED);
    let old_part = block.old_text.push(LINE_FEED);
    let divider = divider_marker().push(LINE_FEED);
    let new_part = block.new_text.push(LINE_FEED);
    let closing = replace_marker().push(LINE_FEED);
    let start = initial_state();
    assert(is_open_line(start.line));

    // The opening line.
    lemma_single_line(search_marker());
    lemma_take_single_line(start.scan, search_marker());
    assert(start.line + opening =~= opening);
    let opened = after_chunk(start, opening).0;
    assert(after_chunk(start, opening).1 == Seq::<EditBlockView>::empty());

    // The search text.
    lemma_lines_make_up_text(old_part);
    assert(pending_line(old_part) =~= Seq::<u8>::empty());
    assert(lines_joined(complete_lines(old_part)) =~= old_part);
    lemma_search_lines_are_gathered(opened.scan, complete_lines(old_part));
    assert(opened.line + old_part =~= old_part);
    let searched = after_chunk(opened, old_part).0;
    assert(searched.scan.old_text =~= old_part);
    assert(after_chunk(opened, old_part).1 == Seq::<EditBlockView>::empty());

    // The divider.
    lemma_single_line(divider_marker());
    lemma_take_single_line(searched.scan, divider_marker());
    assert(searched.line + divider =~= divider);
    let divided = after_chunk(searched, divider).0;
    assert(after_chunk(searched, divider).1 == Seq::<EditBlockView>::empty());

    // The replacement.
    lemma_lines_make_up_text(new_part);
    assert(pending_line(new_part) =~= Seq::<u8>::empty());
    assert(lines_joined(complete_lines(new_part)) =~= new_part);
    lemma_replace_lines_are_gathered(divided.scan, complete_lines(new_part));
    assert(divided.line + new_part =~= new_part);
    let replaced = after_chunk(divided, new_part).0;
    assert(replaced.scan.new_text =~= new_part);
    assert(after_chunk(divided, new_part).1 == Seq::<EditBlockView>::empty());

    // The closing line.
    lemma_single_line(replace_marker());
    lemma_take_single_line(replaced.scan, replace_marker());
    assert(replaced.line + closing =~= closing);
    let closed = after_chunk(replaced, closing).0;
    let blocks = after_chunk(replaced, closing).1;
    assert(old_part.drop_last() =~= block.old_text);
    assert(new_part.drop_last() =~= block.new_text);
    assert(blocks == seq![block]);
    assert(closed == start);

    // All five in one.
    lemma_after_chunk_concat(start, opening, old_part);
    lemma_after_chunk_concat(start, opening + old_part, divider);
    lemma_after_chunk_concat(start, opening + old_part + divider, new_part);
    lemma_after_chunk_concat(start, opening + old_part + divider + new_part, closing);
    assert(Seq::<EditBlockView>::empty() + Seq::<EditBlockView>::empty() + Seq::<
        EditBlockView,
    >::empty() + Seq::<EditBlockView>::empty() + blocks =~= blocks);
}

/// Edit blocks written out one after the other.
pub open spec fn written_blocks(blocks: Seq<EditBlockView>) -> Seq<u8>
    decreases blocks.len(),
{
    if blocks.len() == 0 {
        Seq::empty()
    } else {
        written_blocks(blocks.drop_last()) + written_block(blocks.last())
    }
}

/// A response that is nothing but written blocks holds exactly those
/// blocks, in the order in which they were written.
pub proof fn lemma_written_blocks_are_parsed(blocks: Seq<EditBlockView>)
    requires
        forall|i: int| 0 <= i < blocks.len() ==> is_writable(#[trigger] blocks[i]),
    ensures
        after_chunk(initial_state(), written_blocks(blocks)) == (initial_state(), blocks),
    decreases blocks.len(),
{
    if blocks.len() == 0 {
        lemma_after_empty_chunk(initial_state());
        assert(blocks =~= Seq::<EditBlockView>::empty());
    } else {
        let earlier = blocks.drop_last();
        assert forall|i: int| 0 <= i < earlier.len() implies is_writable(#[trigger] earlier[i]) by {
            assert(earlier[i] == blocks[i]);
        }
        lemma_written_blocks_are_parsed(earlier);
        assert(is_writable(blocks[blocks.len() - 1]));
        lemma_written_block_is_parsed(blocks.last());
        lemma_after_chunk_concat(
            initial_state(),
            written_blocks(earlier),
            written_block(blocks.last()),
        );
        assert(earlier + seq![blocks.last()] =~= blocks);
    }
}

/// The edit blocks that one call of the parser completed, in the order in
/// which they closed. They are kept inline while there is at most one.
#[verifier::external_body]
pub struct EditBlocks {
    items: SmallVec<[EditBlock; 1]>,
}

/// The edit blocks that a collection holds, first to last.
pub uninterp spec fn held_blocks(blocks: EditBlocks) -> Seq<EditBlockView>;

/// `SmallVec::from_vec`: the small vector takes over the vector's items and
/// holds them in the vector's order.
#[verifier::external_body]
fn small_vec_from_vec(blocks: Vec<EditBlock>) -> (held: EditBlocks)
    ensures
        held_blocks(held) == block_views(blocks@),
{
    EditBlocks { items: SmallVec::from_vec(blocks) }
}

/// `SmallVec::into_vec`: the vector takes over the small vector's items and
/// holds them in the small vector's order.
#[verifier::external_body]
fn small_vec_into_vec(held: EditBlocks) -> (blocks: Vec<EditBlock>)
    ensures
        block_views(blocks@) == held_blocks(held),
{
    held.items.into_vec()
}

impl View for EditBlocks {
    type V = Seq<EditBlockView>;

    open spec fn view(&self) -> Seq<EditBlockView> {
        held_blocks(*self)
    }
}

impl EditBlocks {
    /// The blocks as a vector, in the same order.
    pub fn into_vec(self) -> (blocks: Vec<EditBlock>)
        ensures
            block_views(blocks@) == self@,
    {
        small_vec_into_vec(self)
    }
}

/// Whether two byte strings are equal.
pub fn bytes_equal(left: &[u8], right: &[u8]) -> (equal: bool)
    ensures
        equal == (left@ == right@),
{
    if left.len() != right.len() {
        return false;
    }
    let mut index: usize = 0;
    while index < left.len()
        invariant
            index <= left@.len(),
            left@.len() == right@.len(),
            forall|i: int| 0 <= i < index ==> left@[i] == right@[i],
        decreases left@.len() - index,
    {
        if left[index] != right[index] {
            return false;
        }
        index = index + 1;
    }
    assert(left@ =~= right@);
    true
}

/// An incremental parser of the edit blocks in one model response.
///
/// One parser serves one response. It keeps what it has read of a block that
/// is still open, and of a line that is still incomplete, between calls.
#[derive(Debug)]
pub struct EditParser {
    phase: ParserPhase,
    old_text: Vec<u8>,
    new_text: Vec<u8>,
    line: Vec<u8>,
}

impl View for EditParser {
    type V = ParserState;

    closed spec fn view(&self) -> ParserState {
        ParserState {
            scan: ScanState {
                phase: self.phase,
                old_text: self.old_text@,
                new_text: self.new_text@,
            },
            line: self.line@,
        }
    }
}

impl EditParser {
    /// A parser that has read nothing.
    pub fn new() -> (parser: Self)
        ensures
            parser@ == initial_state(),
            parser@.well_formed(),
    {
        EditParser {
            phase: ParserPhase::Pending,
            old_text: Vec::new(),
            new_text: Vec::new(),
            line: Vec::new(),
        }
    }

    /// Reads the next chunk of the response and hands out the blocks that it
    /// completes, in order.
    pub fn push(&mut self, chunk: &[u8]) -> (blocks: EditBlocks)
        requires
            old(self)@.well_formed(),
        ensures
            final(self)@.well_formed(),
            final(self)@ == after_chunk(old(self)@, chunk@).0,
            blocks@ == after_chunk(old(self)@, chunk@).1,
    {
        let ghost before = self@;
        let mut completed: Vec<EditBlock> = Vec::new();
        let mut index: usize = 0;
        proof {
            assert(chunk@.take(0) =~= Seq::<u8>::empty());
            lemma_after_empty_chunk(before);
            assert(block_views(completed@) =~= Seq::<EditBlockView>::empty());
            lemma_after_chunk_well_formed(before, chunk@);
        }
        while index < chunk.len()
            invariant
                index <= chunk@.len(),
                self@ == after_chunk(before, chunk@.take(index as int)).0,
                block_views(completed@) == after_chunk(before, chunk@.take(index as int)).1,
            decreases chunk@.len() - index,
        {
            let byte: u8 = chunk[index];
            proof {
                lemma_after_chunk_push(before, chunk@.take(index as int), byte);
                assert(chunk@.take(index + 1) =~= chunk@.take(index as int).push(byte));
            }
            if byte == LINE_FEED {
                self.end_line(&mut completed);
            } else {
                self.line.push(byte);
            }
            index = index + 1;
        }
        proof {
            assert(chunk@.take(index as int) =~= chunk@);
        }
        small_vec_from_vec(completed)
    }

    /// Ends the stream: hands out the block that the pending line closes, if
    /// the stream ended on a closing line without a line feed. Any other
    /// unfinished block is dropped.
    pub fn finish(self) -> (block: Option<EditBlock>)
        ensures
            match block {
                Some(block) => Some(block@),
                None => None,
            } == take_line(self@.scan, self@.line).1,
    {
        let mut parser = self;
        let mut completed: Vec<EditBlock> = Vec::new();
        proof {
            assert(block_views(completed@) =~= Seq::<EditBlockView>::empty());
        }
        parser.end_line(&mut completed);
        proof {
            let views = block_views(completed@);
            match take_line(self@.scan, self@.line).1 {
                Some(view) => {
                    assert(views == Seq::<EditBlockView>::empty().push(view));
                    assert(views.len() == 1 && views[0] == view);
                },
                None => {
                    assert(views.len() == 0);
                },
            }
        }
        completed.pop()
    }

    /// Takes the pending line as complete.
    fn end_line(&mut self, completed: &mut Vec<EditBlock>)
        ensures
            final(self)@.line == Seq::<u8>::empty(),
            final(self)@.scan == take_line(old(self)@.scan, old(self)@.line).0,
            block_views(final(completed)@) == match take_line(old(self)@.scan, old(self)@.line).1 {
                Some(block) => block_views(old(completed)@).push(block),
                None => block_views(old(completed)@),
            },
    {
        match self.phase {
            ParserPhase::Pending => {
                if bytes_equal(self.line.as_slice(), "<<<<<<< SEARCH".as_bytes()) {
                    self.phase = ParserPhase::WithinSearch;
                    self.old_text.clear();
                    self.new_text.clear();
                }
                self.line.clear();
            },
            ParserPhase::WithinSearch => {
                if bytes_equal(self.line.as_slice(), "=======".as_bytes()) {
                    self.phase = ParserPhase::WithinReplace;
                    self.line.clear();
                } else {
                    self.old_text.append(&mut self.line);
                    self.old_text.push(LINE_FEED);
                    assert(self.old_text@ =~= old(self).old_text@ + old(self).line@.push(
                        LINE_FEED,
                    ));
                }
            },
            ParserPhase::WithinReplace => {
                if bytes_equal(self.line.as_slice(), ">>>>>>> REPLACE".as_bytes()) {
                    let mut old_text: Vec<u8> = Vec::new();
                    let mut new_text: Vec<u8> = Vec::new();
                    std::mem::swap(&mut old_text, &mut self.old_text);
                    std::mem::swap(&mut new_text, &mut self.new_text);
                    if old_text.len() > 0 {
                        old_text.pop();
                    }
                    if new_text.len() > 0 {
                        new_text.pop();
                    }
                    let block = EditBlock { old_text, new_text };
                    proof {
                        assert(block_views(completed@.push(block)) =~= block_views(
                            completed@,
                        ).push(block@));
                    }
                    completed.push(block);
                    self.phase = ParserPhase::Pending;
                    self.line.clear();
                } else {
                    self.new_text.append(&mut self.line);
                    self.new_text.push(LINE_FEED);
                    assert(self.new_text@ =~= old(self).new_text@ + old(self).line@.push(
                        LINE_FEED,
                    ));
                }
            },
        }
    }
}

} // verus!
