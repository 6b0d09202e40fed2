//! A lenient JSON parser that produces a position-annotated syntax tree.
//!
//! Unlike a strict decoder, this library tolerates two structural defects —
//! trailing commas and missing commas — recording them on the affected tree
//! nodes instead of aborting, so that tooling can recover a best-effort tree
//! and precise diagnostics from slightly malformed input. Every other
//! deviation from the grammar, and any text the tokenizer cannot lex, fails
//! the whole parse.

pub mod laws;
pub mod parse;
pub mod tokenize;
pub mod types;

use vstd::prelude::*;
use vstd::string::*;

pub use types::{Node, Parsed};

use parse::{spec_parsed, wf_tokens};
use tokenize::spec_tokenize;
use types::{ParseError, ParseErrorModel, ParsedModel, Token, TokenModel, parsed_model};

verus! {

/// The outcome of parsing a source text: its token sequence parsed into a
/// tree when the text lexes and a value parses from the front; a failure
/// carrying the (empty) token sequence when the text is empty or whitespace
/// only; and a failure carrying no tokens when the text does not lex.
pub open spec fn spec_parse_text(bytes: Seq<u8>) -> ParsedModel {
    match spec_tokenize(bytes) {
        Some(toks) => {
            if toks.len() == 0 {
                ParsedModel::Failure { tokens: toks, tree: None, errors: Seq::empty() }
            } else {
                spec_parsed(toks)
            }
        },
        None => ParsedModel::Failure { tokens: Seq::empty(), tree: None, errors: Seq::empty() },
    }
}

/// Parses a source text into a position-annotated tree, tolerating and
/// recording trailing and missing commas.
///
/// Nested objects and arrays recurse once per nesting level, so the
/// practical nesting depth is bounded by the call stack, not by this
/// library.
pub fn parse(input: &str) -> (r: Parsed)
    requires
        input.spec_bytes().len() < usize::MAX,
    ensures
        parsed_model(r) == spec_parse_text(input.spec_bytes()),
{
    match tokenize::tokenize(input) {
        Some(tokens) => {
            if tokens.len() == 0 {
                let errors: Vec<ParseError> = Vec::new();
                proof {
                    assert(errors.deep_view() =~= Seq::<ParseErrorModel>::empty());
                }
                Parsed::Failure { tokens, tree: None, errors }
            } else {
                proof {
                    parse::lemma_tokenize_wf(input.spec_bytes(), 0, 1, 1);
                    assert(wf_tokens(tokens.deep_view()));
                }
                parse::parse_value(&tokens)
            }
        },
        None => {
            let tokens: Vec<Token> = Vec::new();
            let errors: Vec<ParseError> = Vec::new();
            proof {
                assert(tokens.deep_view() =~= Seq::<TokenModel>::empty());
                assert(errors.deep_view() =~= Seq::<ParseErrorModel>::empty());
            }
            Parsed::Failure { tokens, tree: None, errors }
        },
    }
}

} // verus!
