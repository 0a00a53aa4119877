//! Structural kinds of document nodes and the predicates that classify them.

use vstd::prelude::*;

verus! {

/// Whether a list marks its items with bullets or numbers them.
#[derive(Clone, Copy, Debug, PartialEq, Eq, Structural)]
pub enum ListStyle {
    Bullet,
    Ordered,
}

/// The structural kind of a node, with the payload that belongs to the kind.
#[derive(Clone, Debug, PartialEq, Eq)]
pub enum NodeKind {
    /// The root of a document.
    Document,
    /// A heading with its level.
    Heading(u32),
    /// A paragraph.
    Paragraph,
    /// A list of items.
    List(ListStyle),
    /// One item of a list.
    Item,
    /// A code block, fenced or indented, with its raw literal bytes.
    CodeBlock { fenced: bool, literal: Vec<u8> },
    /// Inline text with its raw bytes.
    Text(Vec<u8>),
    /// Any other block or inline kind.
    Other,
}

/// The mathematical value of a [`NodeKind`].
pub enum KindView {
    Document,
    Heading(u32),
    Paragraph,
    List(ListStyle),
    Item,
    CodeBlock { fenced: bool, literal: Seq<u8> },
    Text(Seq<u8>),
    Other,
}

impl View for NodeKind {
    type V = KindView;

    open spec fn view(&self) -> KindView {
        match self {
            NodeKind::Document => KindView::Document,
            NodeKind::Heading(level) => KindView::Heading(*level),
            NodeKind::Paragraph => KindView::Paragraph,
            NodeKind::List(style) => KindView::List(*style),
            NodeKind::Item => KindView::Item,
            NodeKind::CodeBlock { fenced, literal } => KindView::CodeBlock {
                fenced: *fenced,
                literal: literal@,
            },
            NodeKind::Text(bytes) => KindView::Text(bytes@),
            NodeKind::Other => KindView::Other,
        }
    }
}

/// True exactly for headings, whatever their level.
pub fn is_heading(node: &NodeKind) -> (yes: bool)
    ensures
        yes == (node@ is Heading),
{
    match node {
        NodeKind::Heading(_) => true,
        _ => false,
    }
}

/// True exactly for headings of level one.
pub fn is_heading_1(node: &NodeKind) -> (yes: bool)
    ensures
        yes == (node@ == KindView::Heading(1)),
{
    match node {
        NodeKind::Heading(level) => *level == 1,
        _ => false,
    }
}

/// True exactly for bullet lists.
pub fn is_ul(node: &NodeKind) -> (yes: bool)
    ensures
        yes == (node@ == KindView::List(ListStyle::Bullet)),
{
    match node {
        NodeKind::List(ListStyle::Bullet) => true,
        _ => false,
    }
}

/// True exactly for ordered lists.
pub fn is_ol(node: &NodeKind) -> (yes: bool)
    ensures
        yes == (node@ == KindView::List(ListStyle::Ordered)),
{
    match node {
        NodeKind::List(ListStyle::Ordered) => true,
        _ => false,
    }
}

/// True exactly for code blocks, fenced or indented.
pub fn is_codeblock(node: &NodeKind) -> (yes: bool)
    ensures
        yes == (node@ is CodeBlock),
{
    match node {
        NodeKind::CodeBlock { .. } => true,
        _ => false,
    }
}

/// True exactly for paragraphs.
pub fn is_paragraph(node: &NodeKind) -> (yes: bool)
    ensures
        yes == (node@ is Paragraph),
{
    match node {
        NodeKind::Paragraph => true,
        _ => false,
    }
}

} // verus!
