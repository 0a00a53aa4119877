//! The text of a node: its byte payload decoded as UTF-8, with a marker in
//! front of the text of an indented code block.

use crate::kind::{KindView, NodeKind};
use crate::tree::{DataView, NodeData, NodeRef};
use std::string::FromUtf8Error;
use vstd::prelude::*;
use vstd::utf8::{decode_utf8, valid_utf8};

verus! {

/// Why the text of a node could not be produced.
#[derive(Clone, Copy, Debug, PartialEq, Eq, Structural)]
pub enum ContentError {
    /// The byte payload of the node is not valid UTF-8.
    InvalidContentEncoding,
}

/// The error of `String::from_utf8`, carried through without looking inside.
#[verifier::external_type_specification]
#[verifier::external_body]
pub struct ExFromUtf8Error(FromUtf8Error);

/// `String::from_utf8` succeeds exactly on valid UTF-8, and the string it
/// returns then holds the characters that the bytes encode.
pub assume_specification[ String::from_utf8 ](vec: Vec<u8>) -> (decoded: Result<
    String,
    FromUtf8Error,
>)
    ensures
        decoded is Ok <==> valid_utf8(vec@),
        decoded matches Ok(text) ==> text@ == decode_utf8(vec@),
;

/// The characters that a byte payload stands for.
pub open spec fn decoded(bytes: Seq<u8>) -> Result<Seq<char>, ContentError> {
    if valid_utf8(bytes) {
        Ok(decode_utf8(bytes))
    } else {
        Err(ContentError::InvalidContentEncoding)
    }
}

/// The column from which on a code block counts as fenced rather than indented.
pub const FENCED_FROM_COLUMN: usize = 4;

/// The text of a node. A code block gives its literal, behind a tab when it
/// starts before the fourth column; every other node gives its content unchanged.
pub open spec fn extracted(data: DataView) -> Result<Seq<char>, ContentError> {
    match data.kind {
        KindView::CodeBlock { literal, .. } => match decoded(literal) {
            Ok(text) => Ok(
                if data.start_column < FENCED_FROM_COLUMN {
                    seq!['\t'] + text
                } else {
                    text
                },
            ),
            Err(error) => Err(error),
        },
        _ => decoded(data.content),
    }
}

/// What a result of this module says, with the string taken by its view.
pub open spec fn outcome(result: Result<String, ContentError>) -> Result<Seq<char>, ContentError> {
    match result {
        Ok(text) => Ok(text@),
        Err(error) => Err(error),
    }
}

/// Decodes a byte payload as UTF-8.
pub fn content_to_string(content: Vec<u8>) -> (result: Result<String, ContentError>)
    ensures
        outcome(result) == decoded(content@),
{
    match String::from_utf8(content) {
        Ok(text) => Ok(text),
        Err(_) => Err(ContentError::InvalidContentEncoding),
    }
}

/// The text of a node, from the data of the node alone: children are not looked at.
pub fn extract_content_from_node(node: &NodeData) -> (result: Result<String, ContentError>)
    ensures
        outcome(result) == extracted(node@),
{
    match &node.kind {
        NodeKind::CodeBlock { literal, .. } => {
            let st = content_to_string(literal.clone())?;
            if node.start_column < FENCED_FROM_COLUMN {
                proof {
                    reveal_strlit("\t");
                }
                let marked = String::from_str("\t").concat(st.as_str());
                assert(marked@ =~= seq!['\t'] + st@);
                Ok(marked)
            } else {
                Ok(st)
            }
        },
        _ => content_to_string(node.content.clone()),
    }
}

/// The text of the node that `node` points at.
pub fn extract_content(node: NodeRef<'_>) -> (result: Result<String, ContentError>)
    requires
        node.wf(),
    ensures
        outcome(result) == extracted(node.model().data),
{
    extract_content_from_node(node.data())
}

/// Extraction is repeatable: whatever two calls of `extract_content` on
/// one node return, they return the same text or the same error.
pub proof fn lemma_extract_content_repeats(
    node: NodeRef<'_>,
    first: Result<String, ContentError>,
    second: Result<String, ContentError>,
)
    requires
        node.wf(),
        call_ensures(extract_content, (node,), first),
        call_ensures(extract_content, (node,), second),
    ensures
        outcome(first) == outcome(second),
{
}

} // verus!
