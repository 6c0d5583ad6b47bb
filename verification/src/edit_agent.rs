//! Resolution of streamed edit instructions against a document snapshot.
//!
//! An edit agent is bound to one snapshot. It reads a model's response chunk
//! by chunk, and for every edit block that a chunk completes it works out
//! which lines of the snapshot the block's search text means, tolerating
//! search text that is not byte-identical to the document.

use crate::alignment::{
    best_end, best_start, fill_matrix, find_best_end, lemma_best_end_is_earliest_least,
    lemma_exact_occurrence_is_best, lemma_sides_fit, lemma_trace_start_bounds, occurs_at,
    table_fits, trace_back,
};
use crate::edit_parser::{
    after_chunk, block_views, initial_state, take_line, EditBlock, EditBlockView, EditParser,
    ParserState,
};
use crate::text::{
    clip_left, clip_right, lemma_clip_left_bounds, lemma_clip_right_bounds, lemma_line_end,
    lemma_line_start, line_start, snap_end, Anchor, Bias, DocumentSnapshot, LINE_FEED,
};
use std::ops::Range;
use vstd::prelude::*;

verus! {

/// The name of the prompt template that asks a model for edit blocks.
pub const TEMPLATE_NAME: &'static str = "edit_agent.hbs";

/// What the prompt for an edit is made from.
#[derive(Debug, PartialEq, Eq)]
pub struct EditAgentTemplate {
    pub path: Option<String>,
    pub file_content: String,
    pub instructions: String,
}

impl EditAgentTemplate {
    /// The values for one prompt.
    pub fn new(path: Option<String>, file_content: String, instructions: String) -> (template:
        Self)
        ensures
            template.path == path,
            template.file_content == file_content,
            template.instructions == instructions,
    {
        EditAgentTemplate { path, file_content, instructions }
    }
}

/// Why an edit block could not be resolved.
#[derive(Clone, Copy, Debug, PartialEq, Eq, Structural)]
pub enum EditError {
    /// The search text and the document are together too long for an
    /// alignment table to be addressed.
    TableTooLarge,
}

/// The offsets that a query resolves to in a document: the start of the line
/// on which the best match begins, and the end of the line on which it ends
/// (the end of the match itself where that is the start of a line).
pub open spec fn resolved_offsets(document: Seq<u8>, query: Seq<u8>) -> (int, int) {
    (
        line_start(document, clip_left(document, best_start(query, document))),
        snap_end(document, clip_right(document, best_end(query, document))),
    )
}

/// The anchors that a query resolves to in a document. The first stays
/// behind text inserted at the start of the range, the second in front of
/// text inserted at its end.
pub open spec fn resolved_range(document: Seq<u8>, query: Seq<u8>) -> Range<Anchor> {
    Range {
        start: Anchor { offset: resolved_offsets(document, query).0 as usize, bias: Bias::Right },
        end: Anchor { offset: resolved_offsets(document, query).1 as usize, bias: Bias::Left },
    }
}

/// What resolving one edit block against a document gives.
pub open spec fn resolved_edit(document: Seq<u8>, block: EditBlockView) -> Result<
    (Range<Anchor>, Seq<u8>),
    EditError,
> {
    if table_fits(block.old_text, document) {
        Ok((resolved_range(document, block.old_text), block.new_text))
    } else {
        Err(EditError::TableTooLarge)
    }
}

/// One resolved edit in plain values.
pub open spec fn edit_view(edit: Result<(Range<Anchor>, Vec<u8>), EditError>) -> Result<
    (Range<Anchor>, Seq<u8>),
    EditError,
> {
    match edit {
        Ok((range, new_text)) => Ok((range, new_text@)),
        Err(error) => Err(error),
    }
}

/// The resolved offsets lie in the document, in order, and enclose the best
/// match.
pub proof fn lemma_resolved_offsets_enclose_match(document: Seq<u8>, query: Seq<u8>)
    ensures
        0 <= resolved_offsets(document, query).0 <= best_start(query, document),
        best_start(query, document) <= best_end(query, document),
        best_end(query, document) <= resolved_offsets(document, query).1 <= document.len(),
{
    lemma_best_end_is_earliest_least(query, document);
    let end = best_end(query, document);
    lemma_trace_start_bounds(query, document, query.len() as int, end);
    let start = best_start(query, document);
    lemma_clip_left_bounds(document, start);
    lemma_line_start(document, clip_left(document, start));
    lemma_clip_right_bounds(document, end);
    lemma_line_end(document, clip_right(document, end));
}

/// The resolved offsets mark whole lines: the first is the start of a line,
/// and the second is the end of a line, or else the start of one.
pub proof fn lemma_resolved_offsets_are_whole_lines(document: Seq<u8>, query: Seq<u8>)
    ensures
        ({
            let (start, end) = resolved_offsets(document, query);
            &&& start == 0 || document[start - 1] == LINE_FEED
            &&& end == document.len() || document[end] == LINE_FEED || end == 0 || document[end
                - 1] == LINE_FEED
        }),
{
    lemma_best_end_is_earliest_least(query, document);
    let match_end = best_end(query, document);
    lemma_trace_start_bounds(query, document, query.len() as int, match_end);
    let match_start = best_start(query, document);
    lemma_clip_left_bounds(document, match_start);
    lemma_line_start(document, clip_left(document, match_start));
    lemma_clip_right_bounds(document, match_end);
    let clipped = clip_right(document, match_end);
    lemma_line_end(document, clipped);
    lemma_line_start(document, clipped);
}

/// A query that stands in the document byte for byte resolves to the lines
/// of its first occurrence: the range begins at the start of the line on
/// which that occurrence begins, ends at the end of the line on which it
/// ends, and so holds the whole occurrence. In particular a query that occurs
/// once resolves to the lines of that one occurrence.
pub proof fn lemma_exact_substring_resolves(document: Seq<u8>, query: Seq<u8>, start: int)
    requires
        occurs_at(query, document, start),
        forall|earlier: int| 0 <= earlier < start ==> !occurs_at(query, document, earlier),
    ensures
        resolved_offsets(document, query) == (
            line_start(document, clip_left(document, start)),
            snap_end(document, clip_right(document, start + query.len())),
        ),
        0 <= resolved_offsets(document, query).0 <= start,
        start + query.len() <= resolved_offsets(document, query).1 <= document.len(),
{
    lemma_exact_occurrence_is_best(query, document, start);
    lemma_resolved_offsets_enclose_match(document, query);
}

/// A query that stands in the document exactly once resolves to the lines of
/// that occurrence.
pub proof fn lemma_unique_substring_resolves(document: Seq<u8>, query: Seq<u8>, start: int)
    requires
        occurs_at(query, document, start),
        forall|other: int| other != start ==> !occurs_at(query, document, other),
    ensures
        resolved_offsets(document, query) == (
            line_start(document, clip_left(document, start)),
            snap_end(document, clip_right(document, start + query.len())),
        ),
        0 <= resolved_offsets(document, query).0 <= start,
        start + query.len() <= resolved_offsets(document, query).1 <= document.len(),
{
    lemma_exact_substring_resolves(document, query, start);
}

/// An interpreter of one model response against one document snapshot.
#[derive(Debug)]
pub struct EditAgent {
    snapshot: DocumentSnapshot,
    parser: EditParser,
}

impl EditAgent {
    /// The snapshot that edits are resolved against.
    pub closed spec fn document(&self) -> Seq<u8> {
        self.snapshot@
    }

    /// The state of the parser that reads the response.
    pub closed spec fn parser_state(&self) -> ParserState {
        self.parser@
    }

    /// An agent for a response about `snapshot`, of which nothing was read.
    pub fn new(snapshot: DocumentSnapshot) -> (agent: Self)
        ensures
            agent.document() == snapshot@,
            agent.parser_state() == initial_state(),
            agent.parser_state().well_formed(),
    {
        EditAgent { snapshot, parser: EditParser::new() }
    }

    /// Reads the next chunk of the response and resolves each edit block
    /// that it completes, in order. An edit is the range of the snapshot to
    /// replace and the text to put there.
    pub fn interpret(&mut self, chunk: &[u8]) -> (edits: Vec<
        Result<(Range<Anchor>, Vec<u8>), EditError>,
    >)
        requires
            old(self).parser_state().well_formed(),
        ensures
            final(self).document() == old(self).document(),
            final(self).parser_state().well_formed(),
            final(self).parser_state() == after_chunk(old(self).parser_state(), chunk@).0,
            edits@.len() == after_chunk(old(self).parser_state(), chunk@).1.len(),
            forall|i: int|
                0 <= i < edits@.len() ==> edit_view(#[trigger] edits@[i]) == resolved_edit(
                    old(self).document(),
                    after_chunk(old(self).parser_state(), chunk@).1[i],
                ),
    {
        let mut blocks: Vec<EditBlock> = self.parser.push(chunk).into_vec();
        let ghost views = after_chunk(old(self).parser_state(), chunk@).1;
        assert(views == block_views(blocks@));
        let mut edits: Vec<Result<(Range<Anchor>, Vec<u8>), EditError>> = Vec::new();
        while blocks.len() > 0
            invariant
                edits@.len() + blocks@.len() == views.len(),
                forall|j: int|
                    0 <= j < blocks@.len() ==> (#[trigger] blocks@[j])@ == views[edits@.len() + j],
                self.snapshot == old(self).snapshot,
                forall|i: int|
                    0 <= i < edits@.len() ==> edit_view(#[trigger] edits@[i]) == resolved_edit(
                        self.snapshot@,
                        views[i],
                    ),
            decreases blocks@.len(),
        {
            let block = blocks.remove(0);
            let edit = match Self::try_resolve_location(&self.snapshot, block.old_text.as_slice()) {
                Some(range) => Ok((range, block.new_text)),
                None => Err(EditError::TableTooLarge),
            };
            edits.push(edit);
        }
        edits
    }

    /// Ends the response: resolves the block that the pending line closes,
    /// if the response ended on a closing line without a line feed. Any other
    /// unfinished block is dropped.
    pub fn finish(self) -> (edit: Option<Result<(Range<Anchor>, Vec<u8>), EditError>>)
        ensures
            match edit {
                Some(edit) => Some(edit_view(edit)),
                None => None,
            } == match take_line(self.parser_state().scan, self.parser_state().line).1 {
                Some(block) => Some(resolved_edit(self.document(), block)),
                None => None,
            },
    {
        let EditAgent { snapshot, parser } = self;
        match parser.finish() {
            Some(block) => {
                match Self::try_resolve_location(&snapshot, block.old_text.as_slice()) {
                    Some(range) => Some(Ok((range, block.new_text))),
                    None => Some(Err(EditError::TableTooLarge)),
                }
            },
            None => None,
        }
    }

    /// Resolves a search text to a range of whole lines in the snapshot: the
    /// lines of the stretch of the document that matches the search text
    /// best.
    pub fn resolve_location(snapshot: &DocumentSnapshot, search_query: &[u8]) -> (range: Range<
        Anchor,
    >)
        requires
            table_fits(search_query@, snapshot@),
        ensures
            range == resolved_range(snapshot@, search_query@),
            range.start.offset <= range.end.offset <= snapshot@.len(),
    {
        let document: &[u8] = snapshot.as_bytes();
        let matrix = fill_matrix(search_query, document);
        let best_document_end: usize = find_best_end(&matrix, search_query, document);
        let document_ix: usize = trace_back(&matrix, search_query, document, best_document_end);
        proof {
            lemma_resolved_offsets_enclose_match(snapshot@, search_query@);
        }
        let start: usize = snapshot.line_start(snapshot.clip_offset(document_ix, Bias::Left));
        let mut end: usize = snapshot.clip_offset(best_document_end, Bias::Right);
        if snapshot.line_start(end) < end {
            end = snapshot.line_end(end);
        }
        snapshot.anchor_after(start)..snapshot.anchor_before(end)
    }

    /// Resolves a search text as `resolve_location` does, where a table for
    /// it can be addressed, and gives `None` where it cannot.
    pub fn try_resolve_location(snapshot: &DocumentSnapshot, search_query: &[u8]) -> (range:
        Option<Range<Anchor>>)
        ensures
            range == if table_fits(search_query@, snapshot@) {
                Some(resolved_range(snapshot@, search_query@))
            } else {
                None
            },
    {
        let rows: Option<usize> = search_query.len().checked_add(1);
        let cols: Option<usize> = snapshot.len().checked_add(1);
        match (rows, cols) {
            (Some(rows), Some(cols)) => match rows.checked_mul(cols) {
                Some(_) => Some(Self::resolve_location(snapshot, search_query)),
                None => None,
            },
            _ => {
                proof {
                    if table_fits(search_query@, snapshot@) {
                        lemma_sides_fit(search_query@.len() as int, snapshot@.len() as int);
                    }
                }
                None
            },
        }
    }
}

} // verus!
