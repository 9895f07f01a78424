use vstd::prelude::*;

pub mod ast;
pub mod eval;
pub mod parser;
pub mod token;
pub mod tokenizer;

verus! {

use crate::eval::{evaluate, spec_eval, EvalError};
use crate::parser::{spec_parse_expr, ParseError, Parser};
use crate::tokenizer::{spec_tokenize, tokenize, LexError};

/// Any failure of the pipeline, wrapping the error of the stage that failed.
#[derive(Clone, Copy, Debug, PartialEq, Eq, Structural)]
pub enum Error {
    Lex(LexError),
    Parse(ParseError),
    Eval(EvalError),
}

/// What the whole pipeline yields on one line of text: tokenize it, parse one
/// expression from the front of the tokens (tokens left over after it are
/// ignored), and evaluate the tree.
pub open spec fn spec_interpret(code: Seq<char>) -> Result<int, Error> {
    match spec_tokenize(code) {
        Err(le) => Err(Error::Lex(le)),
        Ok(toks) => match spec_parse_expr(toks, 0) {
            Err(pe) => Err(Error::Parse(pe)),
            Ok(parsed) => match spec_eval(parsed.0) {
                Err(ee) => Err(Error::Eval(ee)),
                Ok(v) => Ok(v),
            },
        },
    }
}

/// Run the three stages on one line of input. The result is exactly
/// `spec_interpret` of the text — a pure function of the characters alone, so
/// re-running the pipeline on the same input always yields the same result.
pub fn interpret(code: Vec<char>) -> (r: Result<i64, Error>)
    ensures
        match r {
            Ok(v) => spec_interpret(code@) == Ok::<int, Error>(v as int),
            Err(e) => spec_interpret(code@) == Err::<int, Error>(e),
        },
{
    let toks = match tokenize(code) {
        Ok(t) => t,
        Err(le) => {
            return Err(Error::Lex(le));
        },
    };
    let mut parser = Parser::new(&toks);
    let e = match parser.parse_expr() {
        Ok(e) => e,
        Err(pe) => {
            return Err(Error::Parse(pe));
        },
    };
    match evaluate(&e) {
        Ok(v) => Ok(v),
        Err(ee) => Err(Error::Eval(ee)),
    }
}

} // verus!
