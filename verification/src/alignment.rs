//! Weighted edit-distance alignment of a query against a document.
//!
//! The alignment is semi-global: a match may begin at any document offset at
//! no cost, must consume the whole query, and ends wherever the total cost is
//! least. Whitespace is cheap to skip or drop, so differences in indentation
//! and line endings barely count, while other differences weigh heavily.

use crate::search::{SearchDirection, SearchMatrix, SearchState};
use crate::text::{ascii_whitespace, is_ascii_whitespace};
use vstd::prelude::*;

verus! {

/// The cost of skipping a document byte that is not whitespace.
pub const INSERTION_COST: u32 = 3;

/// The cost of dropping a query byte that is not whitespace.
pub const DELETION_COST: u32 = 10;

/// The cost of skipping a whitespace byte of the document.
pub const WHITESPACE_INSERTION_COST: u32 = 1;

/// The cost of dropping a whitespace byte of the query.
pub const WHITESPACE_DELETION_COST: u32 = 1;

/// What it costs to leave a query byte unmatched.
pub open spec fn deletion_cost(query_byte: u8) -> u32 {
    if is_ascii_whitespace(query_byte) {
        WHITESPACE_DELETION_COST
    } else {
        DELETION_COST
    }
}

/// What it costs to pass over a document byte.
pub open spec fn insertion_cost(document_byte: u8) -> u32 {
    if is_ascii_whitespace(document_byte) {
        WHITESPACE_INSERTION_COST
    } else {
        INSERTION_COST
    }
}

/// A sum of costs, held at the largest `u32` once it exceeds it.
pub open spec fn saturated(sum: int) -> u32 {
    if sum > u32::MAX {
        u32::MAX
    } else {
        sum as u32
    }
}

/// The cell at `row` and `col` of the alignment table: the least cost of
/// matching the first `row` query bytes against some stretch of the document
/// that ends at offset `col`, and the step by which that cost is reached.
///
/// Row 0 costs nothing in any column. Column 0 adds up the cost of dropping
/// each query byte so far. Every other cell is the least of three steps, ties
/// going to `Up`, then `Left`, then `Diagonal`.
pub open spec fn alignment(query: Seq<u8>, document: Seq<u8>, row: int, col: int) -> SearchState
    decreases row, col,
{
    if row <= 0 {
        SearchState { cost: 0, direction: SearchDirection::Diagonal }
    } else if col <= 0 {
        SearchState {
            cost: saturated(
                alignment(query, document, row - 1, 0).cost + deletion_cost(query[row - 1]),
            ),
            direction: SearchDirection::Diagonal,
        }
    } else {
        let deletion = deletion_cost(query[row - 1]);
        let insertion = insertion_cost(document[col - 1]);
        let up = SearchState {
            cost: saturated(alignment(query, document, row - 1, col).cost + deletion),
            direction: SearchDirection::Up,
        };
        let left = SearchState {
            cost: saturated(alignment(query, document, row, col - 1).cost + insertion),
            direction: SearchDirection::Left,
        };
        let diagonal = SearchState {
            cost: if query[row - 1] == document[col - 1] {
                alignment(query, document, row - 1, col - 1).cost
            } else {
                saturated(
                    alignment(query, document, row - 1, col - 1).cost + deletion + insertion,
                )
            },
            direction: SearchDirection::Diagonal,
        };
        up.least(left).least(diagonal)
    }
}

/// The cost in the bottom row of the table: that of matching the whole query
/// against a stretch of the document that ends at `col`.
pub open spec fn end_cost(query: Seq<u8>, document: Seq<u8>, col: int) -> u32 {
    alignment(query, document, query.len() as int, col).cost
}

/// The earliest of the columns `0..=limit` whose bottom-row cost is least
/// among them.
pub open spec fn earliest_least_end(query: Seq<u8>, document: Seq<u8>, limit: int) -> int
    decreases limit,
{
    if limit <= 0 {
        0
    } else {
        let before = earliest_least_end(query, document, limit - 1);
        if end_cost(query, document, limit) < end_cost(query, document, before) {
            limit
        } else {
            before
        }
    }
}

/// Where the best match ends: the earliest document offset at which the whole
/// query is matched at the least cost.
pub open spec fn best_end(query: Seq<u8>, document: Seq<u8>) -> int {
    earliest_least_end(query, document, document.len() as int)
}

/// The column at which the path through `row` and `col` leaves row 0 or
/// reaches column 0, following the stored steps backwards.
pub open spec fn trace_start(query: Seq<u8>, document: Seq<u8>, row: int, col: int) -> int
    decreases row, col,
{
    if col <= 0 {
        0
    } else if row <= 0 {
        col
    } else {
        match alignment(query, document, row, col).direction {
            SearchDirection::Diagonal => trace_start(query, document, row - 1, col - 1),
            SearchDirection::Up => trace_start(query, document, row - 1, col),
            SearchDirection::Left => trace_start(query, document, row, col - 1),
        }
    }
}

/// Where the best match begins.
pub open spec fn best_start(query: Seq<u8>, document: Seq<u8>) -> int {
    trace_start(query, document, query.len() as int, best_end(query, document))
}

/// Whether a table for this query and document can be addressed at all.
pub open spec fn table_fits(query: Seq<u8>, document: Seq<u8>) -> bool {
    (query.len() + 1) * (document.len() + 1) <= usize::MAX
}

/// `best_end` is a column of the table whose cost no column undercuts and no
/// earlier column equals.
pub proof fn lemma_best_end_is_earliest_least(query: Seq<u8>, document: Seq<u8>)
    ensures
        0 <= best_end(query, document) <= document.len(),
        forall|col: int|
            0 <= col <= document.len() ==> end_cost(query, document, best_end(query, document))
                <= #[trigger] end_cost(query, document, col),
        forall|col: int|
            0 <= col < best_end(query, document) ==> end_cost(
                query,
                document,
                best_end(query, document),
            ) < #[trigger] end_cost(query, document, col),
{
    lemma_earliest_least_end(query, document, document.len() as int);
}

proof fn lemma_earliest_least_end(query: Seq<u8>, document: Seq<u8>, limit: int)
    requires
        0 <= limit,
    ensures
        0 <= earliest_least_end(query, document, limit) <= limit,
        forall|col: int|
            0 <= col <= limit ==> end_cost(
                query,
                document,
                earliest_least_end(query, document, limit),
            ) <= #[trigger] end_cost(query, document, col),
        forall|col: int|
            0 <= col < earliest_least_end(query, document, limit) ==> end_cost(
                query,
                document,
                earliest_least_end(query, document, limit),
            ) < #[trigger] end_cost(query, document, col),
    decreases limit,
{
    if limit > 0 {
        lemma_earliest_least_end(query, document, limit - 1);
    }
}

/// The path back from a cell of the table starts at a column of the table, at
/// or before the cell's own.
pub proof fn lemma_trace_start_bounds(query: Seq<u8>, document: Seq<u8>, row: int, col: int)
    requires
        0 <= row,
        0 <= col,
    ensures
        0 <= trace_start(query, document, row, col) <= col,
    decreases row, col,
{
    if col > 0 && row > 0 {
        match alignment(query, document, row, col).direction {
            SearchDirection::Diagonal => lemma_trace_start_bounds(
                query,
                document,
                row - 1,
                col - 1,
            ),
            SearchDirection::Up => lemma_trace_start_bounds(query, document, row - 1, col),
            SearchDirection::Left => lemma_trace_start_bounds(query, document, row, col - 1),
        }
    }
}

/// One step of matching a query against a document.
pub enum EditStep {
    /// A query byte is matched with a document byte, equal or not.
    Pair,
    /// A query byte is dropped.
    Drop,
    /// A document byte is skipped.
    Skip,
}

/// The cell from which a step arrives at the cell at `row` and `col`.
pub open spec fn step_origin(step: EditStep, row: int, col: int) -> (int, int) {
    match step {
        EditStep::Pair => (row - 1, col - 1),
        EditStep::Drop => (row - 1, col),
        EditStep::Skip => (row, col - 1),
    }
}

/// What a step costs that arrives at the cell at `row` and `col`: nothing
/// for a pair of equal bytes, both costs for a pair of unequal bytes, and
/// the byte's own cost for a drop or a skip.
pub open spec fn step_cost(
    query: Seq<u8>,
    document: Seq<u8>,
    step: EditStep,
    row: int,
    col: int,
) -> int {
    match step {
        EditStep::Pair => if query[row - 1] == document[col - 1] {
            0
        } else {
            deletion_cost(query[row - 1]) + insertion_cost(document[col - 1])
        },
        EditStep::Drop => deletion_cost(query[row - 1]) as int,
        EditStep::Skip => insertion_cost(document[col - 1]) as int,
    }
}

/// Whether `steps` is a way of matching the first `row` query bytes against
/// a stretch of the document that ends at `col`: taken backwards from the
/// cell at `row` and `col`, the steps stay inside the table and lead to row
/// 0, where a match may begin in any column.
pub open spec fn is_edit_script(steps: Seq<EditStep>, row: int, col: int) -> bool
    decreases steps.len(),
{
    if steps.len() == 0 {
        row == 0 && col >= 0
    } else {
        let (from_row, from_col) = step_origin(steps.last(), row, col);
        from_row >= 0 && from_col >= 0 && is_edit_script(steps.drop_last(), from_row, from_col)
    }
}

/// What a way of matching costs in all.
pub open spec fn script_cost(
    query: Seq<u8>,
    document: Seq<u8>,
    steps: Seq<EditStep>,
    row: int,
    col: int,
) -> int
    decreases steps.len(),
{
    if steps.len() == 0 {
        0
    } else {
        let (from_row, from_col) = step_origin(steps.last(), row, col);
        script_cost(query, document, steps.drop_last(), from_row, from_col) + step_cost(
            query,
            document,
            steps.last(),
            row,
            col,
        )
    }
}

/// The way of matching that the table records for a cell: the stored steps,
/// followed back to row 0.
pub open spec fn recorded_script(query: Seq<u8>, document: Seq<u8>, row: int, col: int) -> Seq<
    EditStep,
>
    decreases row, col,
{
    if row <= 0 {
        Seq::empty()
    } else if col <= 0 {
        recorded_script(query, document, row - 1, 0).push(EditStep::Drop)
    } else {
        match alignment(query, document, row, col).direction {
            SearchDirection::Diagonal => recorded_script(query, document, row - 1, col - 1).push(
                EditStep::Pair,
            ),
            SearchDirection::Up => recorded_script(query, document, row - 1, col).push(
                EditStep::Drop,
            ),
            SearchDirection::Left => recorded_script(query, document, row, col - 1).push(
                EditStep::Skip,
            ),
        }
    }
}

/// No way of matching costs less than nothing.
pub proof fn lemma_script_cost_is_natural(
    query: Seq<u8>,
    document: Seq<u8>,
    steps: Seq<EditStep>,
    row: int,
    col: int,
)
    ensures
        0 <= script_cost(query, document, steps, row, col),
    decreases steps.len(),
{
    if steps.len() > 0 {
        let (from_row, from_col) = step_origin(steps.last(), row, col);
        lemma_script_cost_is_natural(query, document, steps.drop_last(), from_row, from_col);
    }
}

/// No way of matching undercuts the table: the cost in a cell is at most the
/// cost of any way of matching the query bytes so far against a stretch of
/// the document that ends at the cell's column.
pub proof fn lemma_alignment_is_least(
    query: Seq<u8>,
    document: Seq<u8>,
    steps: Seq<EditStep>,
    row: int,
    col: int,
)
    requires
        is_edit_script(steps, row, col),
    ensures
        alignment(query, document, row, col).cost <= saturated(
            script_cost(query, document, steps, row, col),
        ),
    decreases steps.len(),
{
    lemma_script_cost_is_natural(query, document, steps, row, col);
    if steps.len() > 0 && row > 0 {
        let (from_row, from_col) = step_origin(steps.last(), row, col);
        lemma_alignment_is_least(query, document, steps.drop_last(), from_row, from_col);
        lemma_script_cost_is_natural(query, document, steps.drop_last(), from_row, from_col);
    }
}

/// The table's cost is reached: the way of matching that the table records
/// for a cell is a way of matching, and costs what the cell says.
pub proof fn lemma_alignment_is_reached(query: Seq<u8>, document: Seq<u8>, row: int, col: int)
    requires
        0 <= row,
        0 <= col,
    ensures
        is_edit_script(recorded_script(query, document, row, col), row, col),
        alignment(query, document, row, col).cost == saturated(
            script_cost(query, document, recorded_script(query, document, row, col), row, col),
        ),
    decreases row, col,
{
    let steps = recorded_script(query, document, row, col);
    if row > 0 {
        let (from_row, from_col) = step_origin(steps.last(), row, col);
        assert(steps.drop_last() =~= recorded_script(query, document, from_row, from_col));
        lemma_alignment_is_reached(query, document, from_row, from_col);
        lemma_script_cost_is_natural(query, document, steps.drop_last(), from_row, from_col);
    }
}

/// Whether the first `row` bytes of the query stand in the document just
/// before offset `col`.
pub open spec fn prefix_ends_at(query: Seq<u8>, document: Seq<u8>, row: int, col: int) -> bool {
    row <= col && document.subrange(col - row, col) == query.subrange(0, row)
}

/// Whether the query stands in the document, byte for byte, from `start` on.
pub open spec fn occurs_at(query: Seq<u8>, document: Seq<u8>, start: int) -> bool {
    &&& 0 <= start
    &&& start + query.len() <= document.len()
    &&& document.subrange(start, start + query.len()) == query
}

/// A cell costs nothing exactly when the query bytes consumed so far stand in
/// the document right before the cell's column; such a cell below row 0 is
/// reached by a diagonal step.
pub proof fn lemma_zero_cost(query: Seq<u8>, document: Seq<u8>, row: int, col: int)
    requires
        0 <= row <= query.len(),
        0 <= col <= document.len(),
    ensures
        alignment(query, document, row, col).cost == 0 <==> prefix_ends_at(
            query,
            document,
            row,
            col,
        ),
        row > 0 && alignment(query, document, row, col).cost == 0 ==> col > 0 && alignment(
            query,
            document,
            row,
            col,
        ).direction == SearchDirection::Diagonal && query[row - 1] == document[col - 1]
            && alignment(query, document, row - 1, col - 1).cost == 0,
    decreases row,
{
    if row == 0 {
        assert(document.subrange(col, col) =~= query.subrange(0, 0));
    } else if col == 0 {
    } else {
        lemma_zero_cost(query, document, row - 1, col - 1);
        let long_document = document.subrange(col - row, col);
        let long_query = query.subrange(0, row);
        let short_document = document.subrange(col - row, col - 1);
        let short_query = query.subrange(0, row - 1);
        if prefix_ends_at(query, document, row, col) {
            assert(long_document[row - 1] == long_query[row - 1]);
            assert(short_document =~= short_query) by {
                assert forall|i: int| 0 <= i < row - 1 implies #[trigger] short_document[i]
                    == short_query[i] by {
                    assert(long_document[i] == long_query[i]);
                }
            }
        }
        if row <= col && query[row - 1] == document[col - 1] && prefix_ends_at(
            query,
            document,
            row - 1,
            col - 1,
        ) {
            assert(long_document =~= long_query) by {
                assert forall|i: int| 0 <= i < row implies #[trigger] long_document[i]
                    == long_query[i] by {
                    if i < row - 1 {
                        assert(short_document[i] == short_query[i]);
                    }
                }
            }
        }
    }
}

/// The path back from a cell that costs nothing runs along the diagonal: it
/// starts as many columns before the cell as the cell has rows above it.
pub proof fn lemma_zero_cost_trace(query: Seq<u8>, document: Seq<u8>, row: int, col: int)
    requires
        0 <= row <= query.len(),
        0 <= col <= document.len(),
        alignment(query, document, row, col).cost == 0,
    ensures
        trace_start(query, document, row, col) == col - row,
    decreases row,
{
    lemma_zero_cost(query, document, row, col);
    if row > 0 {
        lemma_zero_cost_trace(query, document, row - 1, col - 1);
    }
}

/// A query that stands in the document byte for byte is matched exactly
/// where it first stands: the best match begins at the first occurrence and
/// ends where that occurrence ends. In particular a query that occurs once is
/// matched at that one occurrence.
pub proof fn lemma_exact_occurrence_is_best(query: Seq<u8>, document: Seq<u8>, start: int)
    requires
        occurs_at(query, document, start),
        forall|earlier: int| 0 <= earlier < start ==> !occurs_at(query, document, earlier),
    ensures
        best_start(query, document) == start,
        best_end(query, document) == start + query.len(),
        end_cost(query, document, best_end(query, document)) == 0,
{
    let len = query.len() as int;
    let end = best_end(query, document);
    assert(query.subrange(0, len) =~= query);
    lemma_zero_cost(query, document, len, start + len);
    lemma_best_end_is_earliest_least(query, document);
    assert(end_cost(query, document, start + len) == 0);
    assert(end_cost(query, document, end) == 0);
    lemma_zero_cost(query, document, len, end);
    assert(occurs_at(query, document, end - len));
    lemma_zero_cost_trace(query, document, len, end);
}

/// The cost of dropping a query byte.
fn deletion_cost_of(query_byte: u8) -> (cost: u32)
    ensures
        cost == deletion_cost(query_byte),
{
    if ascii_whitespace(query_byte) {
        WHITESPACE_DELETION_COST
    } else {
        DELETION_COST
    }
}

/// The cost of skipping a document byte.
fn insertion_cost_of(document_byte: u8) -> (cost: u32)
    ensures
        cost == insertion_cost(document_byte),
{
    if ascii_whitespace(document_byte) {
        WHITESPACE_INSERTION_COST
    } else {
        INSERTION_COST
    }
}

/// Whether `matrix` is the alignment table of `query` and `document` in all
/// rows up to and including `rows_done`.
pub open spec fn filled_through(
    matrix: SearchMatrix,
    query: Seq<u8>,
    document: Seq<u8>,
    rows_done: int,
) -> bool {
    forall|row: int, col: int|
        0 <= row <= rows_done && 0 <= col <= document.len() ==> #[trigger] matrix.cell(row, col)
            == alignment(query, document, row, col)
}

/// Whether `matrix` is the whole alignment table of `query` and `document`.
pub open spec fn is_alignment_table(matrix: SearchMatrix, query: Seq<u8>, document: Seq<u8>) -> bool {
    &&& matrix.well_formed()
    &&& matrix.rows() == query.len() + 1
    &&& matrix.cols() == document.len() + 1
    &&& filled_through(matrix, query, document, query.len() as int)
}

/// Builds the alignment table of `query` against `document`.
pub fn fill_matrix(query: &[u8], document: &[u8]) -> (matrix: SearchMatrix)
    requires
        table_fits(query@, document@),
    ensures
        is_alignment_table(matrix, query@, document@),
{
    let query_len: usize = query.len();
    let document_len: usize = document.len();
    proof {
        lemma_sides_fit(query_len as int, document_len as int);
    }
    let mut matrix = SearchMatrix::new(query_len + 1, document_len + 1);
    let mut leading_deletion_cost: u32 = 0;
    let mut row: usize = 0;
    while row < query_len
        invariant
            row <= query_len,
            query_len == query@.len(),
            document_len == document@.len(),
            query_len + 1 <= usize::MAX,
            document_len + 1 <= usize::MAX,
            matrix.well_formed(),
            matrix.rows() == query_len + 1,
            matrix.cols() == document_len + 1,
            leading_deletion_cost == alignment(query@, document@, row as int, 0).cost,
            filled_through(matrix, query@, document@, row as int),
        decreases query_len - row,
    {
        let query_byte: u8 = query[row];
        let deletion: u32 = deletion_cost_of(query_byte);
        leading_deletion_cost = leading_deletion_cost.saturating_add(deletion);
        matrix.set(row + 1, 0, SearchState::new(leading_deletion_cost, SearchDirection::Diagonal));
        let mut col: usize = 0;
        while col < document_len
            invariant
                row < query_len,
                col <= document_len,
                query_len == query@.len(),
                document_len == document@.len(),
                query_len + 1 <= usize::MAX,
                document_len + 1 <= usize::MAX,
                matrix.well_formed(),
                matrix.rows() == query_len + 1,
                matrix.cols() == document_len + 1,
                query_byte == query@[row as int],
                deletion == deletion_cost(query_byte),
                filled_through(matrix, query@, document@, row as int),
                forall|c: int|
                    0 <= c <= col ==> #[trigger] matrix.cell(row + 1, c) == alignment(
                        query@,
                        document@,
                        row + 1,
                        c,
                    ),
            decreases document_len - col,
        {
            let document_byte: u8 = document[col];
            let insertion: u32 = insertion_cost_of(document_byte);
            let up = SearchState::new(
                matrix.get(row, col + 1).cost.saturating_add(deletion),
                SearchDirection::Up,
            );
            let left = SearchState::new(
                matrix.get(row + 1, col).cost.saturating_add(insertion),
                SearchDirection::Left,
            );
            let diagonal = SearchState::new(
                if query_byte == document_byte {
                    matrix.get(row, col).cost
                } else {
                    matrix.get(row, col).cost.saturating_add(deletion + insertion)
                },
                SearchDirection::Diagonal,
            );
            matrix.set(row + 1, col + 1, up.min(left).min(diagonal));
            col = col + 1;
        }
        row = row + 1;
    }
    matrix
}

/// Finds the column of the bottom row at which the best match ends.
pub fn find_best_end(matrix: &SearchMatrix, query: &[u8], document: &[u8]) -> (end: usize)
    requires
        is_alignment_table(*matrix, query@, document@),
    ensures
        end == best_end(query@, document@),
        end <= document@.len(),
{
    let query_len: usize = query.len();
    let document_len: usize = document.len();
    let mut best_document_end: usize = 0;
    let mut best_cost: u32 = matrix.get(query_len, 0).cost;
    let mut col: usize = 0;
    while col < document_len
        invariant
            col <= document_len,
            query_len == query@.len(),
            document_len == document@.len(),
            is_alignment_table(*matrix, query@, document@),
            best_document_end == earliest_least_end(query@, document@, col as int),
            best_document_end <= col,
            best_cost == end_cost(query@, document@, best_document_end as int),
        decreases document_len - col,
    {
        col = col + 1;
        let cost: u32 = matrix.get(query_len, col).cost;
        if cost < best_cost {
            best_cost = cost;
            best_document_end = col;
        }
    }
    best_document_end
}

/// Follows the stored steps back from the end of the best match to the
/// document offset at which it begins.
pub fn trace_back(matrix: &SearchMatrix, query: &[u8], document: &[u8], end: usize) -> (start:
    usize)
    requires
        is_alignment_table(*matrix, query@, document@),
        end <= document@.len(),
    ensures
        start == trace_start(query@, document@, query@.len() as int, end as int),
        start <= end,
{
    let mut query_ix: usize = query.len();
    let mut document_ix: usize = end;
    proof {
        lemma_trace_start_bounds(query@, document@, query@.len() as int, end as int);
    }
    while query_ix > 0 && document_ix > 0
        invariant
            query_ix <= query@.len(),
            document_ix <= end <= document@.len(),
            is_alignment_table(*matrix, query@, document@),
            trace_start(query@, document@, query_ix as int, document_ix as int) == trace_start(
                query@,
                document@,
                query@.len() as int,
                end as int,
            ),
        decreases query_ix + document_ix,
    {
        let current = matrix.get(query_ix, document_ix);
        match current.direction {
            SearchDirection::Diagonal => {
                query_ix = query_ix - 1;
                document_ix = document_ix - 1;
            },
            SearchDirection::Up => {
                query_ix = query_ix - 1;
            },
            SearchDirection::Left => {
                document_ix = document_ix - 1;
            },
        }
    }
    document_ix
}

/// A table that fits has sides that fit.
pub proof fn lemma_sides_fit(query_len: int, document_len: int)
    requires
        0 <= query_len,
        0 <= document_len,
        (query_len + 1) * (document_len + 1) <= usize::MAX,
    ensures
        query_len + 1 <= usize::MAX,
        document_len + 1 <= usize::MAX,
{
    assert(query_len + 1 <= (query_len + 1) * (document_len + 1)) by (nonlinear_arith)
        requires
            0 <= query_len,
            0 <= document_len,
    ;
    assert(document_len + 1 <= (query_len + 1) * (document_len + 1)) by (nonlinear_arith)
        requires
            0 <= query_len,
            0 <= document_len,
    ;
}

} // verus!
