use edit_agent::alignment::{fill_matrix, find_best_end, trace_back};
use edit_agent::text::Point;
use edit_agent::{
    Anchor, Bias, DocumentSnapshot, EditAgent, EditAgentTemplate, SearchDirection, SearchMatrix,
    SearchState,
};

fn offsets(document: &str, query: &str) -> (usize, usize) {
    let snapshot = DocumentSnapshot::new(document);
    let range = EditAgent::resolve_location(&snapshot, query.as_bytes());
    assert_eq!(range.start.bias, Bias::Right);
    assert_eq!(range.end.bias, Bias::Left);
    (range.start.offset, range.end.offset)
}

#[test]
fn search_state_new_keeps_its_arguments() {
    let state = SearchState::new(7, SearchDirection::Left);
    assert_eq!(state.cost, 7);
    assert_eq!(state.direction, SearchDirection::Left);
}

#[test]
fn min_prefers_the_lower_cost() {
    let cheap = SearchState::new(1, SearchDirection::Diagonal);
    let dear = SearchState::new(2, SearchDirection::Up);
    assert_eq!(cheap.min(dear), cheap);
    assert_eq!(dear.min(cheap), cheap);
}

#[test]
fn min_breaks_ties_up_then_left_then_diagonal() {
    let up = SearchState::new(4, SearchDirection::Up);
    let left = SearchState::new(4, SearchDirection::Left);
    let diagonal = SearchState::new(4, SearchDirection::Diagonal);
    assert_eq!(up.min(left).min(diagonal), up);
    assert_eq!(diagonal.min(left), left);
    assert_eq!(left.min(diagonal), left);
    assert_eq!(diagonal.min(up), up);
    assert_eq!(left.min(up), up);
}

#[test]
fn matrix_starts_blank_and_keeps_what_is_set() {
    let mut matrix = SearchMatrix::new(3, 4);
    let blank = SearchState::new(0, SearchDirection::Diagonal);
    for row in 0..3 {
        for col in 0..4 {
            assert_eq!(matrix.get(row, col), blank);
        }
    }
    let state = SearchState::new(9, SearchDirection::Up);
    matrix.set(2, 3, state);
    matrix.set(0, 0, SearchState::new(5, SearchDirection::Left));
    assert_eq!(matrix.get(2, 3), state);
    assert_eq!(matrix.get(0, 0), SearchState::new(5, SearchDirection::Left));
    assert_eq!(matrix.get(1, 3), blank);
    assert_eq!(matrix.get(2, 2), blank);
}

#[test]
fn first_row_is_free_and_first_column_adds_up_deletions() {
    let matrix = fill_matrix(b"a b", b"xyz");
    for col in 0..4 {
        assert_eq!(matrix.get(0, col), SearchState::new(0, SearchDirection::Diagonal));
    }
    assert_eq!(matrix.get(1, 0), SearchState::new(10, SearchDirection::Diagonal));
    assert_eq!(matrix.get(2, 0), SearchState::new(11, SearchDirection::Diagonal));
    assert_eq!(matrix.get(3, 0), SearchState::new(21, SearchDirection::Diagonal));
}

#[test]
fn cell_costs_follow_the_recurrence() {
    // Query "ab" against document "a b".
    let matrix = fill_matrix(b"ab", b"a b");
    // (1, 1): 'a' matches 'a' on the diagonal at no cost.
    assert_eq!(matrix.get(1, 1), SearchState::new(0, SearchDirection::Diagonal));
    // (1, 2): skipping the space after the match costs 1, from the left.
    assert_eq!(matrix.get(1, 2), SearchState::new(1, SearchDirection::Left));
    // (1, 3): up is 0 + 10, left is 1 + 3, diagonal is 0 + 10 + 3.
    assert_eq!(matrix.get(1, 3), SearchState::new(4, SearchDirection::Left));
    // (2, 1): up is 0 + 10, left is 20 + 3, diagonal is 10 + 13.
    assert_eq!(matrix.get(2, 1), SearchState::new(10, SearchDirection::Up));
    // (2, 2): up is 1 + 10, left is 10 + 1, diagonal is 0 + 10 + 1: a tie of
    // all three, so up wins.
    assert_eq!(matrix.get(2, 2), SearchState::new(11, SearchDirection::Up));
    // (2, 3): 'b' matches 'b': the diagonal carries over the cost 1.
    assert_eq!(matrix.get(2, 3), SearchState::new(1, SearchDirection::Diagonal));
    assert_eq!(find_best_end(&matrix, b"ab", b"a b"), 3);
    assert_eq!(trace_back(&matrix, b"ab", b"a b", 3), 0);
}

#[test]
fn mismatch_costs_deletion_plus_insertion() {
    let matrix = fill_matrix(b"a", b"b");
    // up is 0 + 10, left is 10 + 3, diagonal is 0 + 10 + 3.
    assert_eq!(matrix.get(1, 1), SearchState::new(10, SearchDirection::Up));
    let matrix = fill_matrix(b" ", b"\t");
    // Whitespace against other whitespace: up is 0 + 1, left is 1 + 1,
    // diagonal is 0 + 1 + 1.
    assert_eq!(matrix.get(1, 1), SearchState::new(1, SearchDirection::Up));
}

#[test]
fn earliest_of_equal_ends_wins() {
    // "ab" stands at 0..2 and at 3..5.
    let matrix = fill_matrix(b"ab", b"ab ab");
    assert_eq!(matrix.get(2, 2).cost, 0);
    assert_eq!(matrix.get(2, 5).cost, 0);
    assert_eq!(find_best_end(&matrix, b"ab", b"ab ab"), 2);
}

#[test]
fn exact_substring_resolves_to_its_lines() {
    let document = "one\ntwo three\nfour\n";
    assert_eq!(offsets(document, "three"), (4, 13));
    assert_eq!(offsets(document, "two three\nfour"), (4, 18));
    assert_eq!(offsets(document, "one"), (0, 3));
    assert_eq!(offsets(document, "four\n"), (14, 19));
}

#[test]
fn whitespace_tolerance() {
    let document = "fn f() {\n    return 1;\n}\n";
    let (start, end) = offsets(document, "return 1;");
    assert_eq!((start, end), (9, 22));
    assert_eq!(&document[start..end], "    return 1;");
    // Indentation that differs from the document's is bridged.
    assert_eq!(offsets(document, "\treturn 1;"), (9, 22));
    assert_eq!(offsets(document, "fn f() {\nreturn 1;\n}"), (0, 24));
}

#[test]
fn inexact_query_resolves_to_the_closest_lines() {
    let document = "alpha beta\ngamma delta\nepsilon\n";
    assert_eq!(offsets(document, "gamma  delta"), (11, 22));
    assert_eq!(offsets(document, "gama delta"), (11, 22));
}

#[test]
fn empty_query_and_empty_document() {
    assert_eq!(offsets("", ""), (0, 0));
    assert_eq!(offsets("abc\n", ""), (0, 0));
    assert_eq!(offsets("", "abc"), (0, 0));
}

#[test]
fn match_inside_a_character_is_widened_to_whole_characters() {
    // The document is one line, so the range is the whole line whatever the
    // bytes matched.
    let document = "h\u{e9}llo";
    assert_eq!(offsets(document, "llo"), (0, 6));
}

#[test]
fn clip_offset_moves_to_character_starts() {
    let snapshot = DocumentSnapshot::new("a\u{20ac}b");
    assert_eq!(snapshot.len(), 5);
    assert_eq!(snapshot.clip_offset(0, Bias::Left), 0);
    assert_eq!(snapshot.clip_offset(1, Bias::Left), 1);
    assert_eq!(snapshot.clip_offset(2, Bias::Left), 1);
    assert_eq!(snapshot.clip_offset(3, Bias::Left), 1);
    assert_eq!(snapshot.clip_offset(2, Bias::Right), 4);
    assert_eq!(snapshot.clip_offset(3, Bias::Right), 4);
    assert_eq!(snapshot.clip_offset(4, Bias::Right), 4);
    assert_eq!(snapshot.clip_offset(5, Bias::Right), 5);
    assert_eq!(snapshot.clip_offset(9, Bias::Left), 5);
    assert_eq!(snapshot.clip_offset(9, Bias::Right), 5);
}

#[test]
fn line_start_and_line_end() {
    let snapshot = DocumentSnapshot::new("ab\n\ncd");
    assert_eq!(snapshot.line_start(0), 0);
    assert_eq!(snapshot.line_start(2), 0);
    assert_eq!(snapshot.line_start(3), 3);
    assert_eq!(snapshot.line_start(4), 4);
    assert_eq!(snapshot.line_start(6), 4);
    assert_eq!(snapshot.line_end(0), 2);
    assert_eq!(snapshot.line_end(2), 2);
    assert_eq!(snapshot.line_end(3), 3);
    assert_eq!(snapshot.line_end(4), 6);
    assert_eq!(snapshot.line_end(6), 6);
}

#[test]
fn anchors_keep_offset_and_side() {
    let snapshot = DocumentSnapshot::new("abc");
    assert_eq!(snapshot.anchor_after(2), Anchor { offset: 2, bias: Bias::Right });
    assert_eq!(snapshot.anchor_before(1), Anchor { offset: 1, bias: Bias::Left });
}

#[test]
fn apply_edit_replaces_the_range() {
    let snapshot = DocumentSnapshot::new("hello world");
    let range = snapshot.anchor_after(6)..snapshot.anchor_before(11);
    let edited = snapshot.apply_edit(&range, b"there").unwrap();
    assert_eq!(edited.as_bytes(), b"hello there");
    assert_eq!(snapshot.text_for_range(6, 11), b"world".to_vec());
    let reversed = snapshot.anchor_after(5)..snapshot.anchor_before(2);
    assert!(snapshot.apply_edit(&reversed, b"x").is_none());
    let beyond = snapshot.anchor_after(5)..snapshot.anchor_before(12);
    assert!(snapshot.apply_edit(&beyond, b"x").is_none());
}

#[test]
fn try_resolve_location_agrees_with_resolve_location() {
    let snapshot = DocumentSnapshot::new("fn f() {\n    return 1;\n}\n");
    let range = EditAgent::try_resolve_location(&snapshot, b"return 1;").unwrap();
    assert_eq!(range, EditAgent::resolve_location(&snapshot, b"return 1;"));
}

#[test]
fn end_to_end_scenario() {
    let document = "struct User {\n    id: u32,\n}\n";
    let snapshot = DocumentSnapshot::new(document);
    let mut agent = EditAgent::new(DocumentSnapshot::new(document));
    let response = "Adding the field.\n<<<<<<< SEARCH\nstruct User {\n    id: u32,\n}\n=======\nstruct User {\n    id: u32,\n    name: String,\n}\n>>>>>>> REPLACE\n";
    let edits = agent.interpret(response.as_bytes());
    assert_eq!(edits.len(), 1);
    let (range, new_text) = edits.into_iter().next().unwrap().unwrap();
    assert_eq!((range.start.offset, range.end.offset), (0, 28));
    assert_eq!(new_text, b"struct User {\n    id: u32,\n    name: String,\n}".to_vec());
    let edited = snapshot.apply_edit(&range, &new_text).unwrap();
    assert_eq!(
        edited.as_bytes(),
        "struct User {\n    id: u32,\n    name: String,\n}\n".as_bytes()
    );
}

#[test]
fn offsets_and_points_convert_both_ways() {
    let snapshot = DocumentSnapshot::new("ab\n\ncde\n");
    let points = [
        (0, 0, 0),
        (1, 0, 1),
        (2, 0, 2),
        (3, 1, 0),
        (4, 2, 0),
        (5, 2, 1),
        (7, 2, 3),
        (8, 3, 0),
    ];
    for (offset, row, column) in points {
        let point = snapshot.offset_to_point(offset);
        assert_eq!(point, Point { row, column });
        assert_eq!(snapshot.point_to_offset(point), offset);
    }
    assert_eq!(snapshot.row_start(0), 0);
    assert_eq!(snapshot.row_start(1), 3);
    assert_eq!(snapshot.row_start(2), 4);
    assert_eq!(snapshot.row_start(3), 8);
    assert_eq!(snapshot.row_start(4), 8);
    assert_eq!(snapshot.row_start(usize::MAX), 8);
    assert_eq!(snapshot.line_len(0), 2);
    assert_eq!(snapshot.line_len(1), 0);
    assert_eq!(snapshot.line_len(2), 3);
    assert_eq!(snapshot.line_len(3), 0);
    assert_eq!(snapshot.line_len(9), 0);
    // A column beyond the end of its line gives the end of the line.
    assert_eq!(snapshot.point_to_offset(Point { row: 0, column: 9 }), 2);
    assert_eq!(snapshot.point_to_offset(Point { row: 7, column: 1 }), 8);
}

#[test]
fn resolved_range_matches_the_snapping_by_points() {
    let document = "fn f() {\n    return 1;\n}\n";
    let snapshot = DocumentSnapshot::new(document);
    let range = EditAgent::resolve_location(&snapshot, b"return 1;");
    let start = snapshot.offset_to_point(range.start.offset);
    let end = snapshot.offset_to_point(range.end.offset);
    assert_eq!(start, Point { row: 1, column: 0 });
    assert_eq!(end, Point { row: 1, column: snapshot.line_len(1) });
}

#[test]
fn interpret_resolves_blocks_as_chunks_complete_them() {
    let document = "one\ntwo\nthree\n";
    let mut agent = EditAgent::new(DocumentSnapshot::new(document));
    assert!(agent.interpret(b"<<<<<<< SEARCH\ntw").is_empty());
    assert!(agent.interpret(b"o\n=======\nTWO\n>>>>>>> REPLA").is_empty());
    let edits = agent.interpret(b"CE\n<<<<<<< SEARCH\nthree\n=======\n3\n>>>>>>> REPLACE");
    assert_eq!(edits.len(), 1);
    let (range, new_text) = edits.into_iter().next().unwrap().unwrap();
    assert_eq!((range.start.offset, range.end.offset), (4, 7));
    assert_eq!(new_text, b"TWO".to_vec());
    // The response ends on the closing line of the second block.
    let (range, new_text) = agent.finish().unwrap().unwrap();
    assert_eq!((range.start.offset, range.end.offset), (8, 13));
    assert_eq!(new_text, b"3".to_vec());
}

#[test]
fn finish_drops_a_block_that_is_still_open() {
    let mut agent = EditAgent::new(DocumentSnapshot::new("one\n"));
    assert!(agent.interpret(b"<<<<<<< SEARCH\none\n=======\n1\n").is_empty());
    assert!(agent.finish().is_none());
}

#[test]
fn template_keeps_its_values() {
    let template = EditAgentTemplate::new(
        Some("src/main.rs".to_string()),
        "fn main() {}".to_string(),
        "add a comment".to_string(),
    );
    assert_eq!(template.path, Some("src/main.rs".to_string()));
    assert_eq!(template.file_content, "fn main() {}");
    assert_eq!(template.instructions, "add a comment");
    assert_eq!(edit_agent::edit_agent::TEMPLATE_NAME, "edit_agent.hbs");
}
