use mdlint::{flatten_nodes, Document, NodeData, NodeKind, OutlineEntry, OutlineError};

fn entry(level: usize, name: &str) -> OutlineEntry {
    OutlineEntry {
        level,
        data: NodeData {
            kind: if level == 1 { NodeKind::Document } else { NodeKind::Other },
            content: name.as_bytes().to_vec(),
            start_column: level,
        },
    }
}

fn outline(levels: &[usize]) -> Vec<OutlineEntry> {
    levels.iter().enumerate().map(|(at, &level)| entry(level, &format!("n{}", at))).collect()
}

#[test]
fn outline_becomes_the_tree_it_describes() {
    let doc = Document::from_outline(outline(&[1, 2, 3, 3, 2, 3, 4, 2])).unwrap();
    assert_eq!(doc.len(), 8);
    let children = |index: usize| -> Vec<usize> {
        doc.node(index).unwrap().children().iter().map(|child| child.index()).collect()
    };
    assert_eq!(children(0), vec![1, 4, 7]);
    assert_eq!(children(1), vec![2, 3]);
    assert_eq!(children(4), vec![5]);
    assert_eq!(children(5), vec![6]);
    assert!(children(7).is_empty());
    let parent = |index: usize| doc.node(index).unwrap().parent().map(|node| node.index());
    assert_eq!(parent(0), None);
    assert_eq!(parent(3), Some(1));
    assert_eq!(parent(6), Some(5));
    assert_eq!(parent(7), Some(0));
    assert_eq!(doc.node(6).unwrap().data(), &entry(4, "n6").data);
}

#[test]
fn document_order_of_the_tree_is_the_order_of_the_outline() {
    let doc = Document::from_outline(outline(&[1, 2, 3, 3, 2, 3, 4, 2])).unwrap();
    let order: Vec<usize> = flatten_nodes(doc.root()).iter().map(|node| node.index()).collect();
    assert_eq!(order, vec![1, 2, 3, 4, 5, 6, 7]);
}

#[test]
fn outline_of_the_root_alone() {
    let doc = Document::from_outline(outline(&[1])).unwrap();
    assert_eq!(doc.len(), 1);
    assert!(doc.root().children().is_empty());
}

#[test]
fn empty_outline_is_refused() {
    assert_eq!(Document::from_outline(Vec::new()).unwrap_err(), OutlineError::Empty);
}

#[test]
fn first_entry_must_be_at_level_one() {
    assert_eq!(Document::from_outline(outline(&[2, 3])).unwrap_err(), OutlineError::Level(0));
    assert_eq!(Document::from_outline(outline(&[0])).unwrap_err(), OutlineError::Level(0));
}

#[test]
fn second_root_is_refused() {
    assert_eq!(Document::from_outline(outline(&[1, 2, 1, 2])).unwrap_err(), OutlineError::Level(2));
}

#[test]
fn level_that_skips_a_parent_is_refused() {
    assert_eq!(Document::from_outline(outline(&[1, 3])).unwrap_err(), OutlineError::Level(1));
    assert_eq!(
        Document::from_outline(outline(&[1, 2, 3, 2, 4, 9])).unwrap_err(),
        OutlineError::Level(4)
    );
}
