//! From the text of an expression to its tree.
use vstd::prelude::*;
use crate::evaluator::{evaluation, infix_to_postfix_calc, Expr};
use crate::tokenizer::{lex, tokenize, view_tokens, CalcError, Infix};

verus! {

/// A parsed expression: its tokens, and its tree, whose numbers refer to
/// the tokens by position.
pub struct Parsed {
    pub tokens: Vec<Infix>,
    pub tree: Expr,
}

/// The tree of an expression text, or the first error met.
pub open spec fn calculation(s: Seq<char>) -> Result<Expr, CalcError> {
    match lex(s) {
        Ok(toks) => evaluation(toks),
        Err(e) => Err(e),
    }
}

/// What parsing `s` may return: its tokens and tree, or its error.
pub open spec fn parse_outcome(s: Seq<char>, r: Result<Parsed, CalcError>) -> bool {
    match r {
        Ok(p) => lex(s) == Ok::<Seq<_>, CalcError>(view_tokens(p.tokens@)) && calculation(s) == Ok::<
            Expr,
            CalcError,
        >(p.tree),
        Err(e) => calculation(s) == Err::<Expr, CalcError>(e),
    }
}

/// Tokenizes `in_str` and runs the automaton over its tokens.
pub fn parse_expression(in_str: &str) -> (r: Result<Parsed, CalcError>)
    ensures
        parse_outcome(in_str@, r),
{
    let tokens = tokenize(in_str)?;
    let tree = infix_to_postfix_calc(tokens.as_slice())?;
    Ok(Parsed { tokens, tree })
}

/// Parsing is a function of the text alone: two parses of the same text
/// agree on success, on the error, and on the tokens and the tree.
pub proof fn lemma_parse_deterministic(
    s: Seq<char>,
    r1: Result<Parsed, CalcError>,
    r2: Result<Parsed, CalcError>,
)
    requires
        parse_outcome(s, r1),
        parse_outcome(s, r2),
    ensures
        r1 is Ok <==> r2 is Ok,
        r1 is Ok ==> view_tokens(r1->Ok_0.tokens@) == view_tokens(r2->Ok_0.tokens@) && r1->Ok_0.tree
            == r2->Ok_0.tree,
        r1 is Err ==> r1 == r2,
{
}

} // verus!
