//! A small arithmetic-expression engine: a lexer, a token-repair pass that
//! tolerates informal input (unbalanced parentheses, unary operators,
//! implicit multiplication after a closing parenthesis), and a
//! recursive-descent parser producing a binary expression tree.
//!
//! Numeric literals travel through the pipeline as decimal text; reducing a
//! finished tree to a floating-point number is left to the thin unverified
//! layer around this library, as verified code here holds no floating-point
//! values.

pub mod ast;
pub mod laws;
pub mod lexer;
pub mod repair;
pub mod token;

pub use ast::Ast;
pub use ast::Expr;
pub use ast::ExprModel;
pub use lexer::tokenize;
pub use token::Op;
pub use token::Tok;
pub use token::Token;

use vstd::prelude::*;

use ast::expr_view;
use ast::parse_sum;
use ast::sum_exec;
use lexer::spec_tokenize;

verus! {

/// The tree of the longest parseable prefix of a repaired token sequence;
/// `None` when no expression stands at the front (for instance an empty
/// parenthesis group, or an empty sequence).
pub open spec fn spec_parse(ts: Seq<Tok>) -> Option<ExprModel> {
    match parse_sum(ts, 0) {
        None => None,
        Some((e, _j)) => Some(e),
    }
}

/// What the whole pipeline — lexing, repair, parsing — produces for `s`.
pub open spec fn spec_parse_text(s: Seq<char>) -> Option<ExprModel> {
    match spec_tokenize(s) {
        None => None,
        Some(ts) => spec_parse(ts),
    }
}

/// Lexes, repairs and parses `s` into an expression tree.  `None` on a
/// lexical failure, on a close parenthesis with no matching open, or on a
/// repaired sequence with no parseable prefix; repair is meant to make the
/// last of these unreachable, but rather than assume so, this entry point
/// checks it and reports an ordinary failure.  Tokens beyond the parsed
/// prefix are ignored, as the parser's grammar never consumes them.
pub fn parse_text(s: &str) -> (r: Option<Box<Expr>>)
    ensures
        match r {
            Some(e) => spec_parse_text(s@) == Some(expr_view(*e)),
            None => spec_parse_text(s@) is None,
        },
{
    let toks = tokenize(s);
    match toks {
        None => None,
        Some(v) => {
            match sum_exec(&v, 0) {
                None => None,
                Some((e, _next)) => Some(e),
            }
        },
    }
}

} // verus!
