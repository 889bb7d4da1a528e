//! A small JSON front end: a lexer that turns source text into a flat token
//! sequence, and a recursive-descent parser that turns the tokens into a tree
//! of typed expression nodes. Number literals keep their source text (their
//! numeric value is checked, not decoded), and string literals keep the raw
//! characters between their quotes, escapes included.

use vstd::prelude::*;

pub mod ast;
pub mod number;
pub mod lexer;
pub mod parser;
pub mod ser;
pub mod laws;

use crate::ast::{JsonError, Token, SpecToken, JsonExpression, SpecJson, toks_view};
use crate::lexer::{Lexer, spec_lex};
use crate::parser::{Parser, sp_parse};

verus! {

/// The document a source text denotes: its token sequence parsed from the
/// front, or the first error in scan order. Tokens behind the document are
/// ignored, as the parser never looks past it.
pub open spec fn spec_json(s: Seq<char>) -> Result<SpecJson, JsonError> {
    match spec_lex(s) {
        Ok(ts) => sp_parse(ts, 0),
        Err(e) => Err(e),
    }
}

/// Lexes and parses a whole source text: the single entry point callers use.
pub fn json(source: String) -> (r: Result<JsonExpression, JsonError>)
    ensures
        match spec_json(source@) {
            Ok(v) => r matches Ok(e) && e@ == v,
            Err(e) => r == Err::<JsonExpression, JsonError>(e),
        },
{
    let mut lexer = Lexer::new(source);
    let ghost src = lexer.source@;
    match lexer.lex() {
        Ok(()) => {},
        Err(e) => {
            return Err(e);
        },
    }
    proof {
        assert(toks_view(Seq::<Token>::empty()) =~= Seq::<SpecToken>::empty());
        match spec_lex(src) {
            Ok(ts) => {
                assert(Seq::<SpecToken>::empty() + ts =~= ts);
            },
            Err(_) => {},
        }
    }
    let mut parser = Parser::new(lexer.tokens);
    parser.parse()
}

} // verus!
