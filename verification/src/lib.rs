//! Document model and query layer for linting markdown: a tree of typed nodes,
//! pre-order traversals over it, content extraction and node classification.

pub mod content;
pub mod extensions;
pub mod kind;
pub mod order;
pub mod outline;
pub mod parser;
pub mod traverse;
pub mod tree;

pub use crate::kind::{
    is_codeblock, is_heading, is_heading_1, is_ol, is_paragraph, is_ul, KindView, ListStyle,
    NodeKind,
};
pub use crate::tree::{DataView, Document, NodeData, NodeModel, NodeRef};
pub use crate::traverse::{filter_nodes, flatten_nodes, flatten_nodes_with_content, iter_nodes};
pub use crate::content::{
    content_to_string, extract_content, extract_content_from_node, ContentError,
};
pub use crate::outline::{EntryView, OutlineEntry, OutlineError};
pub use crate::parser::parse_markdown;
pub use crate::extensions::VecExt;
