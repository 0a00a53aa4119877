use mdlint::{
    filter_nodes, flatten_nodes, flatten_nodes_with_content, is_codeblock, is_heading,
    is_paragraph, iter_nodes, Document, ListStyle, NodeData, NodeKind, NodeRef,
};
use std::cell::RefCell;

fn data(kind: NodeKind, content: &str) -> NodeData {
    NodeData { kind, content: content.as_bytes().to_vec(), start_column: 1 }
}

fn code(literal: &str) -> NodeKind {
    NodeKind::CodeBlock { fenced: true, literal: literal.as_bytes().to_vec() }
}

fn indices(nodes: &[NodeRef<'_>]) -> Vec<usize> {
    nodes.iter().map(|node| node.index()).collect()
}

/// Built level by level, so that document order differs from index order:
///
/// ```text
/// 0 document
/// ├── 1 heading "Intro"
/// │   └── 4 text
/// ├── 2 list
/// │   ├── 5 item
/// │   │   └── 7 paragraph "first"
/// │   └── 6 item
/// │       └── 8 code "let x;"
/// └── 3 paragraph "tail"
/// ```
fn sample() -> Document {
    let mut doc = Document::new(data(NodeKind::Document, ""));
    assert_eq!(doc.add_child(0, data(NodeKind::Heading(2), "Intro")), Some(1));
    assert_eq!(doc.add_child(0, data(NodeKind::List(ListStyle::Ordered), "")), Some(2));
    assert_eq!(doc.add_child(0, data(NodeKind::Paragraph, "tail")), Some(3));
    assert_eq!(doc.add_child(1, data(NodeKind::Text(b"Intro".to_vec()), "")), Some(4));
    assert_eq!(doc.add_child(2, data(NodeKind::Item, "")), Some(5));
    assert_eq!(doc.add_child(2, data(NodeKind::Item, "")), Some(6));
    assert_eq!(doc.add_child(5, data(NodeKind::Paragraph, "first")), Some(7));
    assert_eq!(doc.add_child(6, data(code("let x;"), "")), Some(8));
    doc
}

#[test]
fn flatten_lists_descendants_in_preorder() {
    let doc = sample();
    assert_eq!(indices(&flatten_nodes(doc.root())), vec![1, 4, 2, 5, 7, 6, 8, 3]);
}

#[test]
fn flatten_leaves_out_the_start_node() {
    let doc = sample();
    let list = doc.node(2).unwrap();
    assert_eq!(indices(&flatten_nodes(list)), vec![5, 7, 6, 8]);
}

#[test]
fn flatten_of_a_leaf_is_empty() {
    let doc = sample();
    assert!(flatten_nodes(doc.node(3).unwrap()).is_empty());
    let alone = Document::new(data(NodeKind::Document, ""));
    assert!(flatten_nodes(alone.root()).is_empty());
}

#[test]
fn flatten_lists_every_descendant_once() {
    let doc = sample();
    let mut seen = indices(&flatten_nodes(doc.root()));
    seen.sort();
    assert_eq!(seen, (1..doc.len()).collect::<Vec<usize>>());
}

#[test]
fn parent_comes_before_child_and_subtree_before_next_sibling() {
    let doc = sample();
    let order = indices(&flatten_nodes(doc.root()));
    let place = |index: usize| order.iter().position(|&seen| seen == index).unwrap();
    // The list before its items, the first item before what is below it,
    // and all of that before the second item.
    assert!(place(2) < place(5));
    assert!(place(5) < place(7));
    assert!(place(7) < place(6));
    assert!(place(5) < place(6));
    // The heading with its text before the list, the list before the last paragraph.
    assert!(place(1) < place(4));
    assert!(place(4) < place(2));
    assert!(place(8) < place(3));
}

#[test]
fn filter_keeps_the_matching_part_of_flatten() {
    let doc = sample();
    let all = flatten_nodes(doc.root());
    for predicate in [is_paragraph, is_heading, is_codeblock] {
        let expected: Vec<usize> = all
            .iter()
            .filter(|node| predicate(&node.data().kind))
            .map(|node| node.index())
            .collect();
        assert_eq!(indices(&filter_nodes(doc.root(), predicate)), expected);
    }
    assert_eq!(indices(&filter_nodes(doc.root(), is_paragraph)), vec![7, 3]);
}

#[test]
fn filter_descends_below_nodes_that_do_not_match() {
    let doc = sample();
    // Neither the list nor its items are code blocks, yet the code block below them is found.
    assert_eq!(indices(&filter_nodes(doc.root(), is_codeblock)), vec![8]);
    // A matching parent does not stop the walk either.
    let items = filter_nodes(doc.root(), |kind: &NodeKind| {
        matches!(kind, NodeKind::List(_) | NodeKind::Item)
    });
    assert_eq!(indices(&items), vec![2, 5, 6]);
}

#[test]
fn filter_with_a_predicate_that_rejects_all_is_empty() {
    let doc = sample();
    assert!(filter_nodes(doc.root(), |_: &NodeKind| false).is_empty());
}

#[test]
fn filter_with_a_predicate_that_accepts_all_is_flatten() {
    let doc = sample();
    assert_eq!(
        indices(&filter_nodes(doc.root(), |_: &NodeKind| true)),
        indices(&flatten_nodes(doc.root()))
    );
}

#[test]
fn content_filter_keeps_nodes_with_content_or_literal() {
    let doc = sample();
    assert_eq!(indices(&flatten_nodes_with_content(doc.root())), vec![1, 7, 8, 3]);
}

#[test]
fn content_filter_is_flatten_filtered() {
    let doc = sample();
    let expected: Vec<usize> = flatten_nodes(doc.root())
        .iter()
        .filter(|node| {
            let data = node.data();
            !data.content.is_empty()
                || matches!(&data.kind, NodeKind::CodeBlock { literal, .. } if !literal.is_empty())
        })
        .map(|node| node.index())
        .collect();
    assert_eq!(indices(&flatten_nodes_with_content(doc.root())), expected);
}

#[test]
fn content_filter_drops_empty_code_blocks_and_text_without_content() {
    let mut doc = Document::new(data(NodeKind::Document, ""));
    doc.add_child(0, data(code(""), ""));
    doc.add_child(0, data(NodeKind::Text(b"words".to_vec()), ""));
    doc.add_child(0, data(code(""), "payload"));
    doc.add_child(0, data(code("x"), ""));
    assert_eq!(indices(&flatten_nodes_with_content(doc.root())), vec![3, 4]);
}

#[test]
fn iter_nodes_visits_the_node_and_then_its_descendants() {
    let doc = sample();
    let visited = RefCell::new(Vec::new());
    iter_nodes(doc.root(), &|node: NodeRef<'_>| visited.borrow_mut().push(node.index()));
    assert_eq!(visited.into_inner(), vec![0, 1, 4, 2, 5, 7, 6, 8, 3]);
}

#[test]
fn add_child_refuses_a_parent_that_is_not_there() {
    let mut doc = sample();
    assert_eq!(doc.add_child(9, data(NodeKind::Paragraph, "")), None);
    assert_eq!(doc.len(), 9);
    assert_eq!(indices(&flatten_nodes(doc.root())), vec![1, 4, 2, 5, 7, 6, 8, 3]);
}

#[test]
fn nodes_know_their_parent_and_children() {
    let doc = sample();
    let list = doc.node(2).unwrap();
    assert_eq!(indices(&list.children()), vec![5, 6]);
    assert_eq!(list.parent().map(|parent| parent.index()), Some(0));
    assert!(doc.root().parent().is_none());
    assert!(doc.node(9).is_none());
    assert_eq!(doc.node(7).unwrap().data().content, b"first".to_vec());
}
