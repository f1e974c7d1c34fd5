//! A prefix-notation integer calculator: source text is split into tokens,
//! the tokens are read into a syntax tree by recursive descent, and the tree
//! is folded into one `i64`.
use vstd::prelude::*;

pub mod eval;
pub mod laws;
pub mod lexer;
pub mod parser;

use crate::eval::{eval, eval_expr, EvalError};
use crate::lexer::{lex, tokenize, LexError, Token};
use crate::parser::{parse, parse_tokens, ParseError};

verus! {

/// The stage at which a source text was rejected, and why.
#[derive(Debug, Clone, PartialEq, Eq)]
pub enum CalcError {
    Lex(LexError),
    Parse(ParseError),
    Eval(EvalError),
}

/// The tokens of a lexing outcome, if it succeeded.
pub open spec fn lexed_tokens(r: Result<Seq<Token>, nat>) -> Option<Seq<Token>> {
    match r {
        Ok(ts) => Some(ts),
        Err(_) => None,
    }
}

/// The value of a source text, if every stage accepts it.
pub open spec fn source_value(src: Seq<char>) -> Option<i64> {
    match lexed_tokens(lex(src)) {
        Some(ts) => match parse_tokens(ts) {
            Ok((e, _)) => match eval_expr(e) {
                Ok(v) => Some(v),
                Err(_) => None,
            },
            Err(_) => None,
        },
        None => None,
    }
}

/// The char index at which lexing stopped.
pub open spec fn lex_error_at(e: LexError) -> nat {
    match e {
        LexError::InvalidChar { at, .. } => at as nat,
        LexError::Overflow { at, .. } => at as nat,
    }
}

/// Tokenizes, parses and evaluates `src`. The result is a function of the
/// text alone, and each fault is reported with the stage that found it.
pub fn evaluate(src: String) -> (r: Result<i64, CalcError>)
    ensures
        r is Ok <==> source_value(src@) is Some,
        match r {
            Ok(v) => source_value(src@) == Some(v),
            Err(CalcError::Lex(e)) => lex(src@) == Err::<Seq<Token>, nat>(lex_error_at(e)),
            Err(CalcError::Parse(e)) => lex(src@) matches Ok(ts) && parse_tokens(ts) == Err::<
                (crate::parser::Expr, int),
                ParseError,
            >(e),
            Err(CalcError::Eval(e)) => lex(src@) matches Ok(ts) && parse_tokens(ts) matches Ok(
                (x, _),
            ) && eval_expr(x) == Err::<i64, EvalError>(e),
        },
{
    let tokens = match tokenize(src) {
        Ok(ts) => ts,
        Err(e) => {
            return Err(CalcError::Lex(e));
        },
    };
    let ast = match parse(tokens.as_slice()) {
        Ok((ast, _)) => ast,
        Err(e) => {
            return Err(CalcError::Parse(e));
        },
    };
    match eval(ast) {
        Ok(v) => Ok(v),
        Err(e) => Err(CalcError::Eval(e)),
    }
}

} // verus!
