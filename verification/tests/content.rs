use mdlint::{
    content_to_string, extract_content, extract_content_from_node, ContentError, Document,
    NodeData, NodeKind,
};

fn code_block(literal: &[u8], start_column: usize) -> NodeData {
    NodeData {
        kind: NodeKind::CodeBlock { fenced: false, literal: literal.to_vec() },
        content: Vec::new(),
        start_column,
    }
}

#[test]
fn code_block_at_column_zero_gets_a_tab() {
    let node = code_block(b"x = 1\n", 0);
    assert_eq!(extract_content_from_node(&node), Ok("\tx = 1\n".to_string()));
}

#[test]
fn code_block_at_column_four_is_unchanged() {
    let node = code_block(b"x = 1\n", 4);
    assert_eq!(extract_content_from_node(&node), Ok("x = 1\n".to_string()));
}

#[test]
fn code_block_threshold_is_the_fourth_column() {
    assert_eq!(extract_content_from_node(&code_block(b"a", 3)), Ok("\ta".to_string()));
    assert_eq!(extract_content_from_node(&code_block(b"a", 5)), Ok("a".to_string()));
    assert_eq!(extract_content_from_node(&code_block(b"", 0)), Ok("\t".to_string()));
}

#[test]
fn code_block_ignores_its_generic_content() {
    let mut node = code_block(b"literal", 4);
    node.content = b"content".to_vec();
    assert_eq!(extract_content_from_node(&node), Ok("literal".to_string()));
}

#[test]
fn other_kinds_give_their_content_verbatim() {
    let node = NodeData {
        kind: NodeKind::Paragraph,
        content: b"  spaced \t out \n".to_vec(),
        start_column: 0,
    };
    assert_eq!(extract_content_from_node(&node), Ok("  spaced \t out \n".to_string()));
    let text = NodeData {
        kind: NodeKind::Text(b"inline".to_vec()),
        content: Vec::new(),
        start_column: 0,
    };
    assert_eq!(extract_content_from_node(&text), Ok(String::new()));
}

#[test]
fn extraction_does_not_look_at_children() {
    let mut doc = Document::new(NodeData {
        kind: NodeKind::Document,
        content: Vec::new(),
        start_column: 0,
    });
    doc.add_child(
        0,
        NodeData { kind: NodeKind::Paragraph, content: b"child".to_vec(), start_column: 1 },
    );
    assert_eq!(extract_content(doc.root()), Ok(String::new()));
    assert_eq!(extract_content(doc.node(1).unwrap()), Ok("child".to_string()));
}

#[test]
fn extraction_twice_gives_the_same() {
    let mut doc = Document::new(NodeData {
        kind: NodeKind::Document,
        content: Vec::new(),
        start_column: 0,
    });
    doc.add_child(0, code_block(b"same\n", 2));
    doc.add_child(0, code_block(&[0xff], 2));
    for index in 0..doc.len() {
        let node = doc.node(index).unwrap();
        assert_eq!(extract_content(node), extract_content(node));
    }
    assert_eq!(extract_content(doc.node(1).unwrap()), Ok("\tsame\n".to_string()));
}

#[test]
fn content_to_string_decodes_utf8() {
    assert_eq!(content_to_string(b"plain".to_vec()), Ok("plain".to_string()));
    assert_eq!(
        content_to_string("žluťoučký ✓".as_bytes().to_vec()),
        Ok("žluťoučký ✓".to_string())
    );
    assert_eq!(content_to_string(vec![0xe2, 0x9c, 0x93]), Ok("\u{2713}".to_string()));
    assert_eq!(content_to_string(Vec::new()), Ok(String::new()));
}

#[test]
fn content_to_string_rejects_what_is_not_utf8() {
    assert_eq!(content_to_string(vec![0xff]), Err(ContentError::InvalidContentEncoding));
    assert_eq!(content_to_string(vec![b'a', 0xc3]), Err(ContentError::InvalidContentEncoding));
    assert_eq!(
        content_to_string(vec![0xed, 0xa0, 0x80]),
        Err(ContentError::InvalidContentEncoding)
    );
}

#[test]
fn invalid_payload_fails_for_every_kind() {
    assert_eq!(
        extract_content_from_node(&code_block(&[0xc0, 0x80], 0)),
        Err(ContentError::InvalidContentEncoding)
    );
    let paragraph =
        NodeData { kind: NodeKind::Paragraph, content: vec![0x80], start_column: 0 };
    assert_eq!(
        extract_content_from_node(&paragraph),
        Err(ContentError::InvalidContentEncoding)
    );
}
