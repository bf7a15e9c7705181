//! A line-oriented arithmetic expression front end: text is split into tokens,
//! implicit multiplications are made explicit, and the tokens are parsed into
//! an expression tree together with the diagnostics of everything that was
//! wrong with the line.

use crate::lexer::{lex, lexed, resolve, resolved};
use crate::parser::expression::Expression;
use crate::parser::grammar::{is_expression, spells_expression};
use crate::parser::{parse_of, Diagnostic, Parser};
use vstd::prelude::*;

pub mod lexer;
pub mod parser;

verus! {

/// What a line of text turned out to be.
#[derive(Debug, PartialEq, Eq)]
pub enum Analysis {
    /// The line holds no token.
    Empty,
    /// The line is an expression, with this tree.
    Accepted(Expression),
    /// The line is no expression, for these reasons.
    Rejected(Vec<Diagnostic>),
}

/// Takes a line of text through the three stages: the line is split into
/// tokens, implicit products are made explicit, and the tokens are parsed.
/// A line without a token is set apart; for any other line the tree is given
/// where nothing was found wrong, and else all that was.
pub fn analyze(line: &str) -> (analysis: Analysis)
    ensures
        match analysis {
            Analysis::Empty => lexed(line@).len() == 0,
            Analysis::Accepted(tree) => {
                &&& lexed(line@).len() > 0
                &&& spells_expression(resolved(lexed(line@)), tree)
                &&& tree == parse_of(resolved(lexed(line@))).tree
                &&& tree.well_formed()
            },
            Analysis::Rejected(diagnostics) => {
                &&& lexed(line@).len() > 0
                &&& !is_expression(resolved(lexed(line@)))
                &&& diagnostics.len() > 0
                &&& diagnostics.deep_view() == parse_of(resolved(lexed(line@))).reports
            },
        },
{
    let tokens = lex(line);
    if tokens.len() == 0 {
        return Analysis::Empty;
    }
    let mut parser = Parser::new(resolve(tokens));
    let tree = parser.parse();
    if parser.was_successful() {
        Analysis::Accepted(tree)
    } else {
        Analysis::Rejected(parser.into_diagnostics())
    }
}

} // verus!
