use mdlint::{
    extract_content, filter_nodes, flatten_nodes, flatten_nodes_with_content, is_codeblock,
    is_heading, is_heading_1, is_ol, is_ul, parse_markdown, ListStyle, NodeKind, NodeRef,
};

fn texts(nodes: &[NodeRef<'_>]) -> Vec<String> {
    nodes.iter().map(|node| extract_content(*node).unwrap()).collect()
}

#[test]
fn title_and_two_items() {
    let doc = parse_markdown("# Title\n- item one\n- item two\n").unwrap();
    let root = doc.root();

    let headings = filter_nodes(root, is_heading_1);
    assert_eq!(headings.len(), 1);
    assert_eq!(extract_content(headings[0]).unwrap(), "Title");

    let lists = filter_nodes(root, is_ul);
    assert_eq!(lists.len(), 1);
    assert_eq!(lists[0].data().kind, NodeKind::List(ListStyle::Bullet));
    let items: Vec<NodeRef<'_>> = flatten_nodes(lists[0])
        .into_iter()
        .filter(|node| node.data().kind == NodeKind::Item)
        .collect();
    assert_eq!(items.len(), 2);
    assert!(texts(&flatten_nodes(items[0])).iter().any(|text| text.contains("item one")));
    assert!(texts(&flatten_nodes(items[1])).iter().any(|text| text.contains("item two")));
    assert!(!texts(&flatten_nodes(items[0])).iter().any(|text| text.contains("item two")));
}

#[test]
fn parsed_nodes_come_in_document_order() {
    let doc = parse_markdown("# Title\n- item one\n- item two\n").unwrap();
    assert_eq!(doc.root().data().kind, NodeKind::Document);
    let all = flatten_nodes(doc.root());
    let kinds: Vec<NodeKind> = all.iter().map(|node| node.data().kind.clone()).collect();
    assert_eq!(
        kinds,
        vec![
            NodeKind::Heading(1),
            NodeKind::Text(b"Title".to_vec()),
            NodeKind::List(ListStyle::Bullet),
            NodeKind::Item,
            NodeKind::Paragraph,
            NodeKind::Text(b"item one".to_vec()),
            NodeKind::Item,
            NodeKind::Paragraph,
            NodeKind::Text(b"item two".to_vec()),
        ]
    );
    let indices: Vec<usize> = all.iter().map(|node| node.index()).collect();
    assert_eq!(indices, vec![1, 2, 3, 4, 5, 6, 7, 8, 9]);
}

#[test]
fn parsed_tree_has_the_shape_of_the_text() {
    let doc = parse_markdown("# Title\n- item one\n- item two\n").unwrap();
    let children = |index: usize| -> Vec<usize> {
        doc.node(index).unwrap().children().iter().map(|child| child.index()).collect()
    };
    assert_eq!(children(0), vec![1, 3]);
    assert_eq!(children(1), vec![2]);
    assert_eq!(children(3), vec![4, 7]);
    assert_eq!(children(4), vec![5]);
    assert_eq!(children(5), vec![6]);
}

#[test]
fn parsed_content_and_columns() {
    let doc = parse_markdown("# Title\n- item one\n- item two\n").unwrap();
    assert_eq!(texts(&flatten_nodes_with_content(doc.root())), vec![
        "Title".to_string(),
        "item one\n".to_string(),
        "item two\n".to_string(),
    ]);
    assert_eq!(doc.node(1).unwrap().data().start_column, 1);
    assert_eq!(doc.node(5).unwrap().data().start_column, 3);
}

#[test]
fn parsed_code_blocks_keep_their_literal() {
    let doc = parse_markdown("```\ny = 2\n```\n\ntext\n\n    x = 1\n").unwrap();
    let blocks = filter_nodes(doc.root(), is_codeblock);
    let kinds: Vec<NodeKind> = blocks.iter().map(|node| node.data().kind.clone()).collect();
    assert_eq!(
        kinds,
        vec![
            NodeKind::CodeBlock { fenced: true, literal: b"y = 2\n".to_vec() },
            NodeKind::CodeBlock { fenced: false, literal: b"x = 1\n".to_vec() },
        ]
    );
    assert_eq!(blocks[0].data().start_column, 1);
    assert_eq!(blocks[1].data().start_column, 5);
    assert_eq!(texts(&blocks), vec!["\ty = 2\n".to_string(), "x = 1\n".to_string()]);
}

#[test]
fn parsed_lists_and_headings_are_told_apart() {
    let doc = parse_markdown("## Two\n\n1. first\n2. second\n\n> quote\n").unwrap();
    assert!(filter_nodes(doc.root(), is_heading_1).is_empty());
    let headings = filter_nodes(doc.root(), is_heading);
    assert_eq!(headings.len(), 1);
    assert_eq!(headings[0].data().kind, NodeKind::Heading(2));
    assert!(filter_nodes(doc.root(), is_ul).is_empty());
    assert_eq!(filter_nodes(doc.root(), is_ol).len(), 1);
    let others = filter_nodes(doc.root(), |kind: &NodeKind| *kind == NodeKind::Other);
    assert_eq!(others.len(), 1);
    assert_eq!(others[0].parent().map(|parent| parent.index()), Some(0));
}

#[test]
fn empty_text_parses_to_a_root_alone() {
    let doc = parse_markdown("").unwrap();
    assert_eq!(doc.len(), 1);
    assert_eq!(doc.root().data().kind, NodeKind::Document);
    assert!(flatten_nodes(doc.root()).is_empty());
}
