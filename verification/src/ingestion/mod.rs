//! Ingestion: parsing raw text into the intermediate representation.
pub mod ir;
pub mod json;
pub mod toml_input;

use vstd::prelude::*;
use crate::ingestion::ir::{Node, NodeV, unique_keys};
use crate::{ConvertError, InputFormat};

verus! {

/// The nesting budget for building a tree: it bounds the recursion, and no
/// document that fits in memory reaches it.
pub const MAX_NESTING: usize = usize::MAX;

/// What parsing `text` in `format` gives: the tree's view, or the message of
/// the parse error.
pub open spec fn parse_result(text: Seq<char>, format: InputFormat, r: Result<NodeV, Seq<char>>) -> bool {
    match format {
        InputFormat::Json => match json::json_parse_outcome(text) {
            Err(e) => r == Err::<NodeV, Seq<char>>(json::json_error_message(e)),
            Ok(v) => if json::json_within(v, MAX_NESTING as nat) {
                r matches Ok(n) && json::json_ir(v, n)
            } else {
                r == Err::<NodeV, Seq<char>>(json::json_depth_message())
            },
        },
        InputFormat::Toml => match toml_input::toml_parse_outcome(text) {
            Err(e) => r == Err::<NodeV, Seq<char>>(toml_input::toml_error_message(e)),
            Ok(v) => if toml_input::toml_within(v, MAX_NESTING as nat) {
                r matches Ok(n) && toml_input::toml_ir(v, n)
            } else {
                r == Err::<NodeV, Seq<char>>(toml_input::toml_depth_message())
            },
        },
    }
}

/// A text parses in one way: its tree, or its error message.
pub proof fn lemma_parse_result_unique(
    text: Seq<char>,
    format: InputFormat,
    r1: Result<NodeV, Seq<char>>,
    r2: Result<NodeV, Seq<char>>,
)
    requires
        parse_result(text, format, r1),
        parse_result(text, format, r2),
    ensures
        r1 == r2,
{
    match format {
        InputFormat::Json => {
            if let Ok(v) = json::json_parse_outcome(text) {
                if json::json_within(v, MAX_NESTING as nat) {
                    json::lemma_json_ir_unique(v, r1->Ok_0, r2->Ok_0);
                }
            }
        },
        InputFormat::Toml => {
            if let Ok(v) = toml_input::toml_parse_outcome(text) {
                if toml_input::toml_within(v, MAX_NESTING as nat) {
                    toml_input::lemma_toml_ir_unique(v, r1->Ok_0, r2->Ok_0);
                }
            }
        },
    }
}

/// The outcome of a parse as a plain value: the tree's view or the message.
pub open spec fn parse_view(r: Result<Node, ConvertError>) -> Result<NodeV, Seq<char>> {
    match r {
        Ok(n) => Ok(n@),
        Err(ConvertError::Parse(m)) => Err(m@),
        Err(ConvertError::Emit(m)) => Err(m@),
    }
}

/// Parses `input` in the given format into the tree.
pub fn parse(input: &str, format: InputFormat) -> (r: Result<Node, ConvertError>)
    ensures
        parse_result(input@, format, parse_view(r)),
        r matches Err(e) ==> e is Parse,
        r matches Ok(n) ==> unique_keys(n@),
{
    match format {
        InputFormat::Json => json::parse(input),
        InputFormat::Toml => toml_input::parse(input),
    }
}

} // verus!
