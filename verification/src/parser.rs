//! Parsing markdown text into a document, with comrak as the parser.

use crate::kind::{KindView, ListStyle, NodeKind};
use crate::outline::{builds, outline_view, EntryView, OutlineEntry, OutlineError};
use crate::tree::{DataView, Document, NodeData};
use comrak::nodes::ListType::{Bullet, Ordered};
use comrak::nodes::{NodeList, NodeValue};
use comrak::{parse_document, ComrakOptions};
use typed_arena::Arena;
use vstd::prelude::*;

verus! {

/// comrak's node value, carried from the parser to `kind_of` without looking inside.
#[verifier::external_type_specification]
#[verifier::external_body]
pub struct ExNodeValue(NodeValue);

/// One node as the parser gives it.
struct ParsedNode {
    /// The number of nodes on the way from the root to this node, both counted.
    level: usize,
    /// The node value that the parser made.
    value: NodeValue,
    /// The raw byte payload of the node.
    content: Vec<u8>,
    /// The start column that the parser recorded for the node.
    start_column: usize,
}

/// One node as the parser gives it, as a mathematical value: its level,
/// the parser's node value, its content and its start column.
pub struct ParsedView {
    pub level: usize,
    pub value: NodeValue,
    pub content: Seq<u8>,
    pub start_column: usize,
}

impl View for ParsedNode {
    type V = ParsedView;

    closed spec fn view(&self) -> ParsedView {
        ParsedView {
            level: self.level,
            value: self.value,
            content: self.content@,
            start_column: self.start_column,
        }
    }
}

/// The nodes that comrak's `parse_document` makes of a text with its
/// default options, in document order.
pub uninterp spec fn markdown_nodes(text: Seq<char>) -> Seq<ParsedView>;

/// The kind that `kind_of` gives for a node value of comrak.
pub uninterp spec fn value_kind(value: NodeValue) -> KindView;

/// Runs comrak's `parse_document` with the default options on the text and
/// lists the root and its descendants as `Node::descendants` walks them.
/// Each node comes with the length of `Node::ancestors`, a copy of its
/// value, a copy of its content and its start column. The contract gives
/// that list its name; it claims nothing else of the parser.
#[verifier::external_body]
fn parse_nodes(text: &str) -> (nodes: Vec<ParsedNode>)
    ensures
        nodes@.map_values(|node: ParsedNode| node@) == markdown_nodes(text@),
{
    let arena = Arena::new();
    let root = parse_document(&arena, text, &ComrakOptions::default());
    root.descendants().map(
        |node| {
            let ast = node.data.borrow();
            ParsedNode {
                level: node.ancestors().count(),
                value: ast.value.clone(),
                content: ast.content.clone(),
                start_column: ast.start_column,
            }
        },
    ).collect()
}

/// Tells the variants of comrak's `NodeValue` apart: a heading keeps its
/// level, a list its type, a code block its fence flag and literal, a text
/// its bytes; the variants without an arm of their own become `Other`.
/// The contract gives the result its name.
#[verifier::external_body]
fn kind_of(value: &NodeValue) -> (kind: NodeKind)
    ensures
        kind@ == value_kind(*value),
{
    match value {
        NodeValue::Document => NodeKind::Document,
        NodeValue::Heading(heading) => NodeKind::Heading(heading.level),
        NodeValue::Paragraph => NodeKind::Paragraph,
        NodeValue::List(NodeList { list_type: Bullet, .. }) => NodeKind::List(ListStyle::Bullet),
        NodeValue::List(NodeList { list_type: Ordered, .. }) => NodeKind::List(ListStyle::Ordered),
        NodeValue::Item(_) => NodeKind::Item,
        NodeValue::CodeBlock(block) => {
            NodeKind::CodeBlock { fenced: block.fenced, literal: block.literal.clone() }
        },
        NodeValue::Text(bytes) => NodeKind::Text(bytes.clone()),
        _ => NodeKind::Other,
    }
}

/// The entry of an outline that a parsed node becomes.
pub open spec fn entry_of(node: ParsedView) -> EntryView {
    EntryView {
        level: node.level,
        data: DataView {
            kind: value_kind(node.value),
            content: node.content,
            start_column: node.start_column,
        },
    }
}

/// The outline of the document that a text parses to.
pub open spec fn outline_of(text: Seq<char>) -> Seq<EntryView> {
    markdown_nodes(text).map_values(|node: ParsedView| entry_of(node))
}

/// Parses markdown text into a document. The parser's nodes become an
/// outline, and the outline becomes the tree.
pub fn parse_markdown(text: &str) -> (result: Result<Document, OutlineError>)
    ensures
        builds(outline_of(text@), result),
{
    let nodes = parse_nodes(text);
    let ghost parsed = nodes@;
    let mut entries: Vec<OutlineEntry> = Vec::new();
    for node in it: nodes
        invariant
            it.seq() == parsed,
            entries@.len() == it.index(),
            forall|i: int|
                0 <= i < entries@.len() ==> (#[trigger] entries@[i])@ == entry_of(parsed[i]@),
    {
        let kind = kind_of(&node.value);
        entries.push(
            OutlineEntry {
                level: node.level,
                data: NodeData { kind, content: node.content, start_column: node.start_column },
            },
        );
    }
    assert(outline_view(entries@) =~= outline_of(text@));
    Document::from_outline(entries)
}

} // verus!
