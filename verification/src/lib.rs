//! Format-agnostic induction and emission pipeline: structured documents in,
//! optimised DixScript (`.mdix`) out.
//!
//! Pipeline stages:
//!   1. ingestion: parse raw text into a generic tree (`Node`);
//!   2. induction: detect enum candidates and structurally identical objects;
//!   3. naming: assign readable identifiers;
//!   4. emitter: write `.mdix` source.
pub mod text;
pub mod ingestion;
pub mod induction;
pub mod naming;
pub mod emitter;

use vstd::prelude::*;
use crate::emitter::spec_emit;
use crate::induction::enums::{EnumV, spec_detect_enums};
use crate::induction::functions::{FuncV, spec_detect_funcs};
use crate::ingestion::ir::NodeV;
use crate::ingestion::{lemma_parse_result_unique, parse_result};
use crate::naming::{named_enum, named_func};
use crate::text::{append_str, chars_of, chars_eq, lower_str, str_to_lowercase, string_from_chars};

verus! {

// ── Public entry point ──────────────────────────────────────────────────────

/// The `.mdix` text that the pipeline writes for a parsed tree: enum and
/// function candidates detected, named, then emitted and formatted.
pub open spec fn spec_convert_tree(root: NodeV, opts: ConvertOptions) -> Seq<char> {
    spec_emit(
        root,
        spec_detect_enums(root, opts).map_values(|e: EnumV| named_enum(e)),
        spec_detect_funcs(root, opts).map_values(|f: FuncV| named_func(f)),
    )
}

/// What converting `text` gives: the `.mdix` text of its tree, or the message
/// of the parse error.
pub open spec fn convert_outcome(
    text: Seq<char>,
    format: InputFormat,
    opts: ConvertOptions,
    r: Result<Seq<char>, Seq<char>>,
) -> bool {
    match r {
        Ok(s) => exists|n: NodeV|
            #![trigger parse_result(text, format, Ok::<NodeV, Seq<char>>(n))]
            parse_result(text, format, Ok::<NodeV, Seq<char>>(n)) && s == spec_convert_tree(n, opts),
        Err(m) => parse_result(text, format, Err::<NodeV, Seq<char>>(m)),
    }
}

/// Writes the `.mdix` text for a parsed tree: detects enum and function
/// candidates, names them, then emits and formats the document.
pub fn convert_tree(root: &ingestion::ir::Node, opts: &ConvertOptions) -> (r: String)
    ensures
        r@ == spec_convert_tree(root@, *opts),
{
    let induced = match induction::analyse(root, opts) {
        Ok(x) => x,
        Err(_) => return String::new(),
    };
    let named = naming::resolve(induced, opts);
    match emitter::emit(&named) {
        Ok(s) => s,
        Err(_) => String::new(),
    }
}

/// Converts raw input text to optimised `.mdix`.
///
/// Fails exactly when the text does not parse in the given format (or nests
/// deeper than the parser's budget), with the parser's message; otherwise the
/// result is the `.mdix` text of the parsed tree.
pub fn convert(input: &str, format: InputFormat, opts: &ConvertOptions) -> (r: Result<
    String,
    ConvertError,
>)
    ensures
        match r {
            Ok(s) => convert_outcome(input@, format, *opts, Ok(s@)),
            Err(ConvertError::Parse(m)) => convert_outcome(input@, format, *opts, Err(m@)),
            Err(ConvertError::Emit(_)) => false,
        },
{
    let ir = match ingestion::parse(input, format) {
        Ok(n) => n,
        Err(e) => return Err(e),
    };
    let out = convert_tree(&ir, opts);
    proof {
        assert(parse_result(input@, format, Ok::<NodeV, Seq<char>>(ir@)));
    }
    Ok(out)
}

/// Conversion is deterministic: the same text, format and options always give
/// the same result.
pub proof fn convert_is_deterministic(
    text: Seq<char>,
    format: InputFormat,
    opts: ConvertOptions,
    r1: Result<Seq<char>, Seq<char>>,
    r2: Result<Seq<char>, Seq<char>>,
)
    requires
        convert_outcome(text, format, opts, r1),
        convert_outcome(text, format, opts, r2),
    ensures
        r1 == r2,
{
    let p1: Result<NodeV, Seq<char>> = match r1 {
        Ok(_) => Ok(choose|n: NodeV| parse_result(text, format, Ok::<NodeV, Seq<char>>(n)) && r1->Ok_0 == spec_convert_tree(n, opts)),
        Err(m) => Err(m),
    };
    let p2: Result<NodeV, Seq<char>> = match r2 {
        Ok(_) => Ok(choose|n: NodeV| parse_result(text, format, Ok::<NodeV, Seq<char>>(n)) && r2->Ok_0 == spec_convert_tree(n, opts)),
        Err(m) => Err(m),
    };
    lemma_parse_result_unique(text, format, p1, p2);
}

/// The input formats understood by `convert`.
#[derive(Debug, Clone, Copy, PartialEq, Eq, Structural)]
pub enum InputFormat {
    Json,
    Toml,
}

impl InputFormat {
    /// Parses a format name, ignoring case (`"json"`, `"TOML"`, ...).
    pub fn from_str(s: &str) -> (r: Option<Self>)
        ensures
            r == Self::from_lowercase_spec(lower_str(s@)),
    {
        let lower = str_to_lowercase(s);
        Self::from_lowercase(lower.as_str())
    }

    /// The format named by an already lower-cased name.
    pub open spec fn from_lowercase_spec(s: Seq<char>) -> Option<Self> {
        if s == "json"@ {
            Some(InputFormat::Json)
        } else if s == "toml"@ {
            Some(InputFormat::Toml)
        } else {
            None
        }
    }

    /// Maps a lower-cased format name to its format: `"json"` and `"toml"`.
    pub fn from_lowercase(s: &str) -> (r: Option<Self>)
        ensures
            r == Self::from_lowercase_spec(s@),
    {
        let cs = chars_of(s);
        let mut json: Vec<char> = Vec::new();
        append_str(&mut json, "json");
        let mut toml: Vec<char> = Vec::new();
        append_str(&mut toml, "toml");
        if chars_eq(&cs, &json) {
            Some(InputFormat::Json)
        } else if chars_eq(&cs, &toml) {
            Some(InputFormat::Toml)
        } else {
            None
        }
    }
}

/// Tuning of the induction stage.
#[derive(Debug, Clone)]
pub struct ConvertOptions {
    /// Minimum character saving required to apply an optimisation.
    pub threshold: usize,
    /// Minimum number of times a pattern must appear before induction fires.
    pub min_occurrences: usize,
}

impl Default for ConvertOptions {
    fn default() -> (r: Self)
        ensures
            r.threshold == 50,
            r.min_occurrences == 3,
    {
        ConvertOptions { threshold: 50, min_occurrences: 3 }
    }
}

/// The ways a conversion can fail.
#[derive(Debug)]
pub enum ConvertError {
    Parse(String),
    Emit(String),
}

impl ConvertError {
    /// The error's message: `"Parse error: "` or `"Emit error: "` and the detail.
    pub open spec fn message_spec(self) -> Seq<char> {
        match self {
            ConvertError::Parse(s) => "Parse error: "@ + s@,
            ConvertError::Emit(s) => "Emit error: "@ + s@,
        }
    }

    /// Renders the error as text, as `Display` would.
    pub fn to_string(&self) -> (r: String)
        ensures
            r@ == self.message_spec(),
    {
        let mut out: Vec<char> = Vec::new();
        match self {
            ConvertError::Parse(s) => {
                append_str(&mut out, "Parse error: ");
                append_str(&mut out, s.as_str());
            },
            ConvertError::Emit(s) => {
                append_str(&mut out, "Emit error: ");
                append_str(&mut out, s.as_str());
            },
        }
        string_from_chars(out.as_slice())
    }
}

/// The threshold as the signed number that savings are compared against
/// (`threshold as isize`).
pub open spec fn threshold_of(opts: ConvertOptions) -> int {
    (opts.threshold as isize) as int
}

} // verus!
