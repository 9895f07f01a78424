use vstd::prelude::*;

verus! {

/// The four binary operators of the expression language.
#[derive(Clone, Copy, Debug, PartialEq, Eq, Structural)]
pub enum Op {
    Add,
    Sub,
    Mul,
    Div,
}

/// One lexical unit of the input text. The tokenizer always appends a
/// synthetic `EndOfInput` token so that the parser never indexes past
/// the end of the sequence.
#[derive(Clone, Copy, Debug, PartialEq, Eq, Structural)]
pub enum Token {
    Number(i64),
    Operator(Op),
    LeftParen,
    RightParen,
    EndOfInput,
}

/// A token sequence as the tokenizer hands it to the parser: non-empty,
/// terminated by `EndOfInput`, with no `EndOfInput` anywhere earlier.
pub open spec fn wf_tokens(toks: Seq<Token>) -> bool {
    &&& toks.len() > 0
    &&& toks[toks.len() - 1] == Token::EndOfInput
    &&& forall|i: int| 0 <= i < toks.len() - 1 ==> toks[i] != Token::EndOfInput
}

/// Whether `t` holds a non-negative value if it is a `Number` at all.
pub open spec fn number_token_nonneg(t: Token) -> bool {
    match t {
        Token::Number(v) => v >= 0,
        _ => true,
    }
}

/// Every `Number` token of the sequence holds a non-negative value, as in
/// every sequence the tokenizer yields.
pub open spec fn numbers_nonneg(toks: Seq<Token>) -> bool {
    forall|i: int| 0 <= i < toks.len() ==> #[trigger] number_token_nonneg(toks[i])
}

} // verus!
