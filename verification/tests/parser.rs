use edit_agent::{EditBlock, EditParser};

const RESPONSE: &str = "I will make two changes.\n\n<<<<<<< SEARCH\nfn a() {}\n=======\nfn a() -> u8 {\n    1\n}\n>>>>>>> REPLACE\n\nand\n<<<<<<< SEARCH\nlet x = 1;\nlet y = 2;\n=======\n>>>>>>> REPLACE\ndone\n";

fn texts(blocks: Vec<EditBlock>) -> Vec<(String, String)> {
    blocks
        .into_iter()
        .map(|block| {
            (
                String::from_utf8(block.old_text).unwrap(),
                String::from_utf8(block.new_text).unwrap(),
            )
        })
        .collect()
}

fn expected() -> Vec<(String, String)> {
    vec![
        ("fn a() {}".to_string(), "fn a() -> u8 {\n    1\n}".to_string()),
        ("let x = 1;\nlet y = 2;".to_string(), String::new()),
    ]
}

fn parse_in_chunks(response: &[u8], size: usize) -> Vec<(String, String)> {
    let mut parser = EditParser::new();
    let mut blocks = Vec::new();
    for chunk in response.chunks(size) {
        blocks.extend(parser.push(chunk).into_vec());
    }
    texts(blocks)
}

#[test]
fn whole_response_in_one_chunk() {
    let mut parser = EditParser::new();
    let blocks = parser.push(RESPONSE.as_bytes()).into_vec();
    assert_eq!(texts(blocks), expected());
}

#[test]
fn chunk_size_does_not_matter() {
    for size in 1..=RESPONSE.len() {
        assert_eq!(parse_in_chunks(RESPONSE.as_bytes(), size), expected());
    }
}

#[test]
fn chunks_cut_inside_a_character() {
    let response = "<<<<<<< SEARCH\nna\u{ef}ve \u{20ac}\n=======\nna\u{ef}ve \u{a3}\n>>>>>>> REPLACE\n";
    let whole = parse_in_chunks(response.as_bytes(), response.len());
    assert_eq!(whole, vec![("na\u{ef}ve \u{20ac}".to_string(), "na\u{ef}ve \u{a3}".to_string())]);
    let mut parser = EditParser::new();
    let mut blocks = Vec::new();
    for chunk in response.as_bytes().chunks(1) {
        blocks.extend(parser.push(chunk).into_vec());
    }
    assert_eq!(texts(blocks), whole);
}

#[test]
fn block_is_handed_out_when_its_closing_line_ends() {
    let mut parser = EditParser::new();
    assert!(parser.push(b"<<<<<<< SEARCH\nold\n=======\nnew\n").into_vec().is_empty());
    assert!(parser.push(b">>>>>>> REPLACE").into_vec().is_empty());
    let blocks = parser.push(b"\n").into_vec();
    assert_eq!(texts(blocks), vec![("old".to_string(), "new".to_string())]);
    assert!(parser.push(b"more text\n").into_vec().is_empty());
}

#[test]
fn stream_ending_inside_a_block_hands_out_nothing() {
    let mut parser = EditParser::new();
    let blocks = parser.push(b"<<<<<<< SEARCH\nold\n=======\nnew\n>>>>>>> REPL").into_vec();
    assert!(blocks.is_empty());
    assert!(parser.finish().is_none());

    let mut parser = EditParser::new();
    assert!(parser.push(b"<<<<<<< SEARCH\nold\n").into_vec().is_empty());
    assert!(parser.finish().is_none());
}

#[test]
fn finish_closes_a_block_whose_last_line_has_no_line_feed() {
    let mut parser = EditParser::new();
    assert!(parser.push(b"<<<<<<< SEARCH\nold\n=======\nnew\n>>>>>>> REPLACE").into_vec().is_empty());
    let block = parser.finish().unwrap();
    assert_eq!(block.old_text, b"old".to_vec());
    assert_eq!(block.new_text, b"new".to_vec());
}

#[test]
fn empty_texts() {
    let mut parser = EditParser::new();
    let blocks = parser.push(b"<<<<<<< SEARCH\n=======\n>>>>>>> REPLACE\n").into_vec();
    assert_eq!(texts(blocks), vec![(String::new(), String::new())]);
    let blocks = parser.push(b"<<<<<<< SEARCH\n\n\n=======\n\n>>>>>>> REPLACE\n").into_vec();
    assert_eq!(texts(blocks), vec![("\n".to_string(), String::new())]);
}

#[test]
fn markers_must_be_whole_lines() {
    let mut parser = EditParser::new();
    let blocks = parser
        .push(b" <<<<<<< SEARCH\nx\n<<<<<<< SEARCH \n<<<<<<< SEARCH\na\n=======b\n=======\nc\n>>>>>>> REPLACE!\n>>>>>>> REPLACE\n")
        .into_vec();
    assert_eq!(
        texts(blocks),
        vec![("a\n=======b".to_string(), "c\n>>>>>>> REPLACE!".to_string())]
    );
}

#[test]
fn text_outside_blocks_is_passed_over() {
    let mut parser = EditParser::new();
    assert!(parser.push(b"=======\n>>>>>>> REPLACE\nplain text\n").into_vec().is_empty());
    let blocks = parser.push(b"<<<<<<< SEARCH\na\n=======\nb\n>>>>>>> REPLACE\n").into_vec();
    assert_eq!(texts(blocks), vec![("a".to_string(), "b".to_string())]);
}

#[test]
fn empty_chunk_changes_nothing() {
    let mut parser = EditParser::new();
    assert!(parser.push(b"").into_vec().is_empty());
    assert!(parser.push(b"<<<<<<< SEARCH\na\n=======\nb\n>>>>>>> REPLACE").into_vec().is_empty());
    assert!(parser.push(b"").into_vec().is_empty());
    assert_eq!(texts(parser.push(b"\n").into_vec()), vec![("a".to_string(), "b".to_string())]);
}

#[test]
fn written_blocks_are_read_back() {
    let blocks = vec![
        ("a\nb".to_string(), "c".to_string()),
        (String::new(), "only new".to_string()),
        ("\n".to_string(), "\n\n".to_string()),
        ("<<<<<<< SEARCH".to_string(), "=======".to_string()),
    ];
    let mut written = String::new();
    for (old_text, new_text) in &blocks {
        written.push_str("<<<<<<< SEARCH\n");
        written.push_str(old_text);
        written.push_str("\n=======\n");
        written.push_str(new_text);
        written.push_str("\n>>>>>>> REPLACE\n");
    }
    assert_eq!(parse_in_chunks(written.as_bytes(), written.len()), blocks);
    assert_eq!(parse_in_chunks(written.as_bytes(), 3), blocks);
}
