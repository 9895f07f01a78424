use vstd::prelude::*;
use crate::ast::{leaf_values, leaves_nonneg, Expr};
use crate::token::{number_token_nonneg, numbers_nonneg, wf_tokens, Op, Token};

verus! {

/// The parser's failure: the lookahead token did not fit the grammar.
#[derive(Clone, Copy, Debug, PartialEq, Eq, Structural)]
pub struct ParseError;

/// The operator of an addition-level token (`+` or `-`), if `t` is one.
pub open spec fn add_level_op(t: Token) -> Option<Op> {
    match t {
        Token::Operator(o) => if o == Op::Add || o == Op::Sub {
            Some(o)
        } else {
            None
        },
        _ => None,
    }
}

/// The operator of a multiplication-level token (`*` or `/`), if `t` is one.
pub open spec fn mul_level_op(t: Token) -> Option<Op> {
    match t {
        Token::Operator(o) => if o == Op::Mul || o == Op::Div {
            Some(o)
        } else {
            None
        },
        _ => None,
    }
}

pub open spec fn binary(op: Op, left: Expr, right: Expr) -> Expr {
    Expr::BinaryOperation { operator: op, left: Box::new(left), right: Box::new(right) }
}

/// The grammar, one spec function per rule, each returning the tree parsed
/// from position `pos` on and the position just past it:
///
///   expr   := term (('+' | '-') term)*
///   term   := factor (('*' | '/') factor)*
///   factor := '(' expr ')' | NUMBER
///
/// The position guards around each recursive step only make termination of
/// the definitions evident; a successful sub-parse always lands within them,
/// so the guarded error branches are never taken.
pub open spec fn spec_parse_expr(toks: Seq<Token>, pos: int) -> Result<(Expr, int), ParseError>
    decreases toks.len() - pos, 2int,
{
    match spec_parse_term(toks, pos) {
        Err(e) => Err(e),
        Ok((first, p)) => if pos < p <= toks.len() {
            spec_parse_expr_tail(toks, first, p)
        } else {
            Err(ParseError)
        },
    }
}

/// The `(('+' | '-') term)*` repetition, folding each step into `acc` from
/// the left.
pub open spec fn spec_parse_expr_tail(toks: Seq<Token>, acc: Expr, pos: int) -> Result<
    (Expr, int),
    ParseError,
>
    decreases toks.len() - pos, 3int,
{
    if 0 <= pos < toks.len() {
        match add_level_op(toks[pos]) {
            Some(o) => match spec_parse_term(toks, pos + 1) {
                Err(e) => Err(e),
                Ok((t, p2)) => if pos + 1 < p2 <= toks.len() {
                    spec_parse_expr_tail(toks, binary(o, acc, t), p2)
                } else {
                    Err(ParseError)
                },
            },
            None => Ok((acc, pos)),
        }
    } else {
        Ok((acc, pos))
    }
}

pub open spec fn spec_parse_term(toks: Seq<Token>, pos: int) -> Result<(Expr, int), ParseError>
    decreases toks.len() - pos, 1int,
{
    match spec_parse_factor(toks, pos) {
        Err(e) => Err(e),
        Ok((first, p)) => if pos < p <= toks.len() {
            spec_parse_term_tail(toks, first, p)
        } else {
            Err(ParseError)
        },
    }
}

/// The `(('*' | '/') factor)*` repetition, folding each step into `acc` from
/// the left.
pub open spec fn spec_parse_term_tail(toks: Seq<Token>, acc: Expr, pos: int) -> Result<
    (Expr, int),
    ParseError,
>
    decreases toks.len() - pos, 3int,
{
    if 0 <= pos < toks.len() {
        match mul_level_op(toks[pos]) {
            Some(o) => match spec_parse_factor(toks, pos + 1) {
                Err(e) => Err(e),
                Ok((f, p2)) => if pos + 1 < p2 <= toks.len() {
                    spec_parse_term_tail(toks, binary(o, acc, f), p2)
                } else {
                    Err(ParseError)
                },
            },
            None => Ok((acc, pos)),
        }
    } else {
        Ok((acc, pos))
    }
}

pub open spec fn spec_parse_factor(toks: Seq<Token>, pos: int) -> Result<(Expr, int), ParseError>
    decreases toks.len() - pos, 0int,
{
    if 0 <= pos < toks.len() {
        match toks[pos] {
            Token::Number(v) => Ok((Expr::Literal { value: v }, pos + 1)),
            Token::LeftParen => match spec_parse_expr(toks, pos + 1) {
                Err(e) => Err(e),
                Ok((e, p)) => if 0 <= p < toks.len() && toks[p] == Token::RightParen {
                    Ok((e, p + 1))
                } else {
                    Err(ParseError)
                },
            },
            _ => Err(ParseError),
        }
    } else {
        Err(ParseError)
    }
}

/// The recursive-descent cursor: the token sequence, the position of the
/// lookahead, and the lookahead itself.
pub struct Parser<'a> {
    pub tokens: &'a Vec<Token>,
    pub pos: usize,
    pub token: Token,
}

impl<'a> Parser<'a> {
    /// The cursor sits inside a well-formed token sequence with the lookahead
    /// cached; every method of the parser keeps this.
    pub open spec fn wf(self) -> bool {
        &&& wf_tokens(self.tokens@)
        &&& self.pos < self.tokens@.len()
        &&& self.token == self.tokens@[self.pos as int]
    }

    pub fn new(tokens: &'a Vec<Token>) -> (parser: Parser<'a>)
        requires
            wf_tokens(tokens@),
        ensures
            parser.wf(),
            parser.tokens@ == tokens@,
            parser.pos == 0,
    {
        Parser { tokens, pos: 0, token: tokens[0] }
    }

    /// Advance past the current lookahead and return it. The `EndOfInput`
    /// sentinel is never consumed, so the cursor stays in bounds.
    pub fn next(&mut self) -> (t: Token)
        requires
            old(self).wf(),
            old(self).token != Token::EndOfInput,
        ensures
            final(self).wf(),
            final(self).tokens == old(self).tokens,
            final(self).pos == old(self).pos + 1,
            t == old(self).token,
    {
        let n = self.tokens.len();
        proof {
            let toks = self.tokens@;
            assert(toks[toks.len() - 1] == Token::EndOfInput);
            assert(self.pos < n - 1) by {
                if self.pos == toks.len() - 1 {
                    assert(toks[self.pos as int] == Token::EndOfInput);
                }
            }
        }
        self.pos += 1;
        self.token = self.tokens[self.pos];
        self.tokens[self.pos - 1]
    }

    /// The sole syntactic check: consume the lookahead if it is the expected
    /// token, fail otherwise.
    pub fn eat(&mut self, expect: Token) -> (r: Result<Token, ParseError>)
        requires
            old(self).wf(),
            expect != Token::EndOfInput,
        ensures
            final(self).wf(),
            final(self).tokens == old(self).tokens,
            old(self).token == expect ==> r == Ok::<Token, ParseError>(expect) && final(self).pos
                == old(self).pos + 1,
            old(self).token != expect ==> r == Err::<Token, ParseError>(ParseError) && *final(self)
                == *old(self),
    {
        if self.token == expect {
            return Ok(self.next());
        }
        Err(ParseError)
    }

    /// Parse one `expr`: a `term`, then any number of `+`/`-` steps, folded
    /// left — exactly what `spec_parse_expr` says from the entry position.
    #[verifier::loop_isolation(false)]
    pub fn parse_expr(&mut self) -> (r: Result<Expr, ParseError>)
        requires
            old(self).wf(),
        ensures
            final(self).wf(),
            final(self).tokens == old(self).tokens,
            match r {
                Ok(e) => spec_parse_expr(old(self).tokens@, old(self).pos as int) == Ok::<
                    (Expr, int),
                    ParseError,
                >((e, final(self).pos as int)) && old(self).pos < final(self).pos,
                Err(pe) => spec_parse_expr(old(self).tokens@, old(self).pos as int) == Err::<
                    (Expr, int),
                    ParseError,
                >(pe),
            },
        decreases self.tokens@.len() - self.pos, 2int,
    {
        let ghost start = old(self).pos as int;
        let mut res = match self.parse_term() {
            Ok(e) => e,
            Err(pe) => {
                return Err(pe);
            },
        };
        while self.token == Token::Operator(Op::Add) || self.token == Token::Operator(Op::Sub)
            invariant
                self.wf(),
                self.tokens == old(self).tokens,
                start < self.pos <= self.tokens@.len(),
                spec_parse_expr(self.tokens@, start) == spec_parse_expr_tail(
                    self.tokens@,
                    res,
                    self.pos as int,
                ),
            decreases self.tokens@.len() - self.pos,
        {
            let ghost toks = self.tokens@;
            let ghost p = self.pos as int;
            let ghost acc = res;
            let o: Op = if self.token == Token::Operator(Op::Add) {
                Op::Add
            } else {
                Op::Sub
            };
            proof {
                assert(add_level_op(toks[p]) == Some(o));
            }
            let _ = self.next();
            let t = match self.parse_term() {
                Ok(t) => t,
                Err(pe) => {
                    proof {
                        assert(spec_parse_term(toks, p + 1) == Err::<(Expr, int), ParseError>(pe));
                        assert(spec_parse_expr_tail(toks, acc, p) == Err::<(Expr, int), ParseError>(
                            pe,
                        ));
                    }
                    return Err(pe);
                },
            };
            proof {
                assert(spec_parse_term(toks, p + 1) == Ok::<(Expr, int), ParseError>(
                    (t, self.pos as int),
                ));
                assert(p + 1 < self.pos as int <= toks.len());
            }
            res = Expr::BinaryOperation { operator: o, left: Box::new(res), right: Box::new(t) };
            proof {
                assert(res == binary(o, acc, t));
                assert(spec_parse_expr_tail(toks, acc, p) == spec_parse_expr_tail(
                    toks,
                    res,
                    self.pos as int,
                ));
            }
        }
        Ok(res)
    }

    /// Parse one `term`: a `factor`, then any number of `*`/`/` steps, folded
    /// left — exactly what `spec_parse_term` says from the entry position.
    #[verifier::loop_isolation(false)]
    pub fn parse_term(&mut self) -> (r: Result<Expr, ParseError>)
        requires
            old(self).wf(),
        ensures
            final(self).wf(),
            final(self).tokens == old(self).tokens,
            match r {
                Ok(e) => spec_parse_term(old(self).tokens@, old(self).pos as int) == Ok::<
                    (Expr, int),
                    ParseError,
                >((e, final(self).pos as int)) && old(self).pos < final(self).pos,
                Err(pe) => spec_parse_term(old(self).tokens@, old(self).pos as int) == Err::<
                    (Expr, int),
                    ParseError,
                >(pe),
            },
        decreases self.tokens@.len() - self.pos, 1int,
    {
        let ghost start = old(self).pos as int;
        let mut res = match self.parse_factor() {
            Ok(e) => e,
            Err(pe) => {
                return Err(pe);
            },
        };
        while self.token == Token::Operator(Op::Mul) || self.token == Token::Operator(Op::Div)
            invariant
                self.wf(),
                self.tokens == old(self).tokens,
                start < self.pos <= self.tokens@.len(),
                spec_parse_term(self.tokens@, start) == spec_parse_term_tail(
                    self.tokens@,
                    res,
                    self.pos as int,
                ),
            decreases self.tokens@.len() - self.pos,
        {
            let ghost toks = self.tokens@;
            let ghost p = self.pos as int;
            let ghost acc = res;
            let o: Op = if self.token == Token::Operator(Op::Mul) {
                Op::Mul
            } else {
                Op::Div
            };
            proof {
                assert(mul_level_op(toks[p]) == Some(o));
            }
            let _ = self.next();
            let f = match self.parse_factor() {
                Ok(f) => f,
                Err(pe) => {
                    proof {
                        assert(spec_parse_factor(toks, p + 1) == Err::<(Expr, int), ParseError>(
                            pe,
                        ));
                        assert(spec_parse_term_tail(toks, acc, p) == Err::<(Expr, int), ParseError>(
                            pe,
                        ));
                    }
                    return Err(pe);
                },
            };
            proof {
                assert(spec_parse_factor(toks, p + 1) == Ok::<(Expr, int), ParseError>(
                    (f, self.pos as int),
                ));
                assert(p + 1 < self.pos as int <= toks.len());
            }
            res = Expr::BinaryOperation { operator: o, left: Box::new(res), right: Box::new(f) };
            proof {
                assert(res == binary(o, acc, f));
                assert(spec_parse_term_tail(toks, acc, p) == spec_parse_term_tail(
                    toks,
                    res,
                    self.pos as int,
                ));
            }
        }
        Ok(res)
    }

    /// Parse one `factor`: a parenthesised `expr`, or a number made into a
    /// literal leaf — exactly what `spec_parse_factor` says from the entry
    /// position.
    #[verifier::loop_isolation(false)]
    pub fn parse_factor(&mut self) -> (r: Result<Expr, ParseError>)
        requires
            old(self).wf(),
        ensures
            final(self).wf(),
            final(self).tokens == old(self).tokens,
            match r {
                Ok(e) => spec_parse_factor(old(self).tokens@, old(self).pos as int) == Ok::<
                    (Expr, int),
                    ParseError,
                >((e, final(self).pos as int)) && old(self).pos < final(self).pos,
                Err(pe) => spec_parse_factor(old(self).tokens@, old(self).pos as int) == Err::<
                    (Expr, int),
                    ParseError,
                >(pe),
            },
        decreases self.tokens@.len() - self.pos, 0int,
    {
        match self.token {
            Token::LeftParen => {
                let _ = self.next();
                let e = match self.parse_expr() {
                    Ok(e) => e,
                    Err(pe) => {
                        return Err(pe);
                    },
                };
                match self.eat(Token::RightParen) {
                    Ok(_) => Ok(e),
                    Err(pe) => Err(pe),
                }
            },
            Token::Number(v) => {
                let _ = self.next();
                Ok(Expr::Literal { value: v })
            },
            _ => Err(ParseError),
        }
    }
}

/// The values of the `Number` tokens among `toks[i..j]`, in order.
pub open spec fn number_values_in(toks: Seq<Token>, i: int, j: int) -> Seq<int>
    decreases j - i,
{
    if i < j && 0 <= i < toks.len() {
        match toks[i] {
            Token::Number(v) => seq![v as int] + number_values_in(toks, i + 1, j),
            _ => number_values_in(toks, i + 1, j),
        }
    } else {
        Seq::empty()
    }
}

proof fn lemma_number_values_split(toks: Seq<Token>, i: int, k: int, j: int)
    requires
        0 <= i <= k <= j,
    ensures
        number_values_in(toks, i, j) == number_values_in(toks, i, k) + number_values_in(
            toks,
            k,
            j,
        ),
    decreases k - i,
{
    if i < k {
        lemma_number_values_split(toks, i + 1, k, j);
        if i < toks.len() {
            match toks[i] {
                Token::Number(v) => {
                    assert(seq![v as int] + (number_values_in(toks, i + 1, k) + number_values_in(
                        toks,
                        k,
                        j,
                    )) =~= (seq![v as int] + number_values_in(toks, i + 1, k))
                        + number_values_in(toks, k, j));
                },
                _ => {},
            }
        } else {
            assert(number_values_in(toks, i, j) =~= Seq::<int>::empty());
            assert(number_values_in(toks, i, k) =~= Seq::<int>::empty());
            assert(number_values_in(toks, k, j) =~= Seq::<int>::empty());
            assert(Seq::<int>::empty() + Seq::<int>::empty() =~= Seq::<int>::empty());
        }
    } else {
        assert(number_values_in(toks, i, k) =~= Seq::<int>::empty());
        assert(Seq::<int>::empty() + number_values_in(toks, k, j) =~= number_values_in(
            toks,
            k,
            j,
        ));
    }
}

/// Law: parsing neither invents, drops, reorders nor alters a number — the
/// literal leaves of the tree are, in order, exactly the values of the
/// `Number` tokens in the range the parse consumed. So the value at every
/// leaf the evaluator reads is the very integer the tokenizer produced.
pub proof fn lemma_parse_preserves_literals(toks: Seq<Token>, pos: int)
    ensures
        spec_parse_expr(toks, pos) matches Ok(ep) ==> pos < ep.1 <= toks.len() && leaf_values(ep.0)
            == number_values_in(toks, pos, ep.1),
    decreases toks.len() - pos, 2int,
{
    lemma_parse_term_literals(toks, pos);
    if let Ok((first, p)) = spec_parse_term(toks, pos) {
        if pos < p <= toks.len() {
            lemma_parse_expr_tail_literals(toks, first, p);
            if let Ok((e, p2)) = spec_parse_expr_tail(toks, first, p) {
                lemma_number_values_split(toks, pos, p, p2);
            }
        }
    }
}

proof fn lemma_parse_expr_tail_literals(toks: Seq<Token>, acc: Expr, pos: int)
    requires
        0 <= pos <= toks.len(),
    ensures
        spec_parse_expr_tail(toks, acc, pos) matches Ok(ep) ==> pos <= ep.1 <= toks.len()
            && leaf_values(ep.0) == leaf_values(acc) + number_values_in(toks, pos, ep.1),
    decreases toks.len() - pos, 3int,
{
    if 0 <= pos < toks.len() && add_level_op(toks[pos]) is Some {
        let o = add_level_op(toks[pos])->Some_0;
        lemma_parse_term_literals(toks, pos + 1);
        if let Ok((t, p2)) = spec_parse_term(toks, pos + 1) {
            if pos + 1 < p2 <= toks.len() {
                let folded = binary(o, acc, t);
                assert(leaf_values(folded) == leaf_values(acc) + leaf_values(t));
                lemma_parse_expr_tail_literals(toks, folded, p2);
                if let Ok((e, p3)) = spec_parse_expr_tail(toks, folded, p2) {
                    assert(number_values_in(toks, pos + 1, pos + 1) =~= Seq::<int>::empty());
                    assert(number_values_in(toks, pos, pos + 1) =~= Seq::<int>::empty());
                    lemma_number_values_split(toks, pos, pos + 1, p2);
                    assert(Seq::<int>::empty() + number_values_in(toks, pos + 1, p2)
                        =~= number_values_in(toks, pos + 1, p2));
                    lemma_number_values_split(toks, pos, p2, p3);
                    assert((leaf_values(acc) + leaf_values(t)) + number_values_in(toks, p2, p3)
                        =~= leaf_values(acc) + (leaf_values(t) + number_values_in(toks, p2, p3)));
                    assert(leaf_values(t) + number_values_in(toks, p2, p3) =~= number_values_in(
                        toks,
                        pos,
                        p2,
                    ) + number_values_in(toks, p2, p3));
                }
            }
        }
    } else {
        assert(number_values_in(toks, pos, pos) =~= Seq::<int>::empty());
        assert(leaf_values(acc) + Seq::<int>::empty() =~= leaf_values(acc));
    }
}

proof fn lemma_parse_term_literals(toks: Seq<Token>, pos: int)
    ensures
        spec_parse_term(toks, pos) matches Ok(ep) ==> pos < ep.1 <= toks.len() && leaf_values(ep.0)
            == number_values_in(toks, pos, ep.1),
    decreases toks.len() - pos, 1int,
{
    lemma_parse_factor_literals(toks, pos);
    if let Ok((first, p)) = spec_parse_factor(toks, pos) {
        if pos < p <= toks.len() {
            lemma_parse_term_tail_literals(toks, first, p);
            if let Ok((e, p2)) = spec_parse_term_tail(toks, first, p) {
                lemma_number_values_split(toks, pos, p, p2);
            }
        }
    }
}

proof fn lemma_parse_term_tail_literals(toks: Seq<Token>, acc: Expr, pos: int)
    requires
        0 <= pos <= toks.len(),
    ensures
        spec_parse_term_tail(toks, acc, pos) matches Ok(ep) ==> pos <= ep.1 <= toks.len()
            && leaf_values(ep.0) == leaf_values(acc) + number_values_in(toks, pos, ep.1),
    decreases toks.len() - pos, 3int,
{
    if 0 <= pos < toks.len() && mul_level_op(toks[pos]) is Some {
        let o = mul_level_op(toks[pos])->Some_0;
        lemma_parse_factor_literals(toks, pos + 1);
        if let Ok((f, p2)) = spec_parse_factor(toks, pos + 1) {
            if pos + 1 < p2 <= toks.len() {
                let folded = binary(o, acc, f);
                assert(leaf_values(folded) == leaf_values(acc) + leaf_values(f));
                lemma_parse_term_tail_literals(toks, folded, p2);
                if let Ok((e, p3)) = spec_parse_term_tail(toks, folded, p2) {
                    assert(number_values_in(toks, pos + 1, pos + 1) =~= Seq::<int>::empty());
                    assert(number_values_in(toks, pos, pos + 1) =~= Seq::<int>::empty());
                    lemma_number_values_split(toks, pos, pos + 1, p2);
                    assert(Seq::<int>::empty() + number_values_in(toks, pos + 1, p2)
                        =~= number_values_in(toks, pos + 1, p2));
                    lemma_number_values_split(toks, pos, p2, p3);
                    assert((leaf_values(acc) + leaf_values(f)) + number_values_in(toks, p2, p3)
                        =~= leaf_values(acc) + (leaf_values(f) + number_values_in(toks, p2, p3)));
                    assert(leaf_values(f) + number_values_in(toks, p2, p3) =~= number_values_in(
                        toks,
                        pos,
                        p2,
                    ) + number_values_in(toks, p2, p3));
                }
            }
        }
    } else {
        assert(number_values_in(toks, pos, pos) =~= Seq::<int>::empty());
        assert(leaf_values(acc) + Seq::<int>::empty() =~= leaf_values(acc));
    }
}

proof fn lemma_parse_factor_literals(toks: Seq<Token>, pos: int)
    ensures
        spec_parse_factor(toks, pos) matches Ok(ep) ==> pos < ep.1 <= toks.len() && leaf_values(
            ep.0,
        ) == number_values_in(toks, pos, ep.1),
    decreases toks.len() - pos, 0int,
{
    if 0 <= pos < toks.len() {
        match toks[pos] {
            Token::Number(v) => {
                assert(number_values_in(toks, pos + 1, pos + 1) =~= Seq::<int>::empty());
                assert(seq![v as int] + Seq::<int>::empty() =~= seq![v as int]);
                assert(leaf_values(Expr::Literal { value: v }) =~= seq![v as int]);
            },
            Token::LeftParen => {
                lemma_parse_preserves_literals(toks, pos + 1);
                if let Ok((e, p)) = spec_parse_expr(toks, pos + 1) {
                    if 0 <= p < toks.len() && toks[p] == Token::RightParen {
                        assert(number_values_in(toks, pos + 1, pos + 1) =~= Seq::<int>::empty());
                        assert(number_values_in(toks, pos, pos + 1) =~= Seq::<int>::empty());
                        assert(number_values_in(toks, p + 1, p + 1) =~= Seq::<int>::empty());
                        assert(number_values_in(toks, p, p + 1) =~= Seq::<int>::empty());
                        lemma_number_values_split(toks, pos, pos + 1, p + 1);
                        lemma_number_values_split(toks, pos + 1, p, p + 1);
                        assert(number_values_in(toks, pos + 1, p) + Seq::<int>::empty()
                            =~= number_values_in(toks, pos + 1, p));
                        assert(Seq::<int>::empty() + number_values_in(toks, pos + 1, p + 1)
                            =~= number_values_in(toks, pos + 1, p + 1));
                    }
                }
            },
            _ => {},
        }
    }
}


proof fn lemma_number_values_nonneg(toks: Seq<Token>, i: int, j: int)
    requires
        numbers_nonneg(toks),
    ensures
        forall|x: int|
            0 <= x < number_values_in(toks, i, j).len() ==> number_values_in(toks, i, j)[x] >= 0,
    decreases j - i,
{
    if i < j && 0 <= i < toks.len() {
        lemma_number_values_nonneg(toks, i + 1, j);
        let tail = number_values_in(toks, i + 1, j);
        match toks[i] {
            Token::Number(v) => {
                assert(number_token_nonneg(toks[i]));
                let whole = number_values_in(toks, i, j);
                assert forall|x: int| 0 <= x < whole.len() implies whole[x] >= 0 by {
                    if x == 0 {
                        assert(whole[0] == v as int);
                    } else {
                        assert(whole[x] == tail[x - 1]);
                    }
                }
            },
            _ => {},
        }
    }
}

proof fn lemma_leaves_nonneg_from_values(e: Expr)
    requires
        forall|x: int| 0 <= x < leaf_values(e).len() ==> leaf_values(e)[x] >= 0,
    ensures
        leaves_nonneg(e),
    decreases e,
{
    match e {
        Expr::Literal { value } => {
            assert(leaf_values(e)[0] == value as int);
        },
        Expr::BinaryOperation { operator, left, right } => {
            let lv = leaf_values(*left);
            let rv = leaf_values(*right);
            assert forall|x: int| 0 <= x < lv.len() implies lv[x] >= 0 by {
                assert(leaf_values(e)[x] == lv[x]);
            }
            assert forall|x: int| 0 <= x < rv.len() implies rv[x] >= 0 by {
                assert(leaf_values(e)[lv.len() + x] == rv[x]);
            }
            lemma_leaves_nonneg_from_values(*left);
            lemma_leaves_nonneg_from_values(*right);
        },
    }
}

/// Law: a tree parsed from a token sequence whose numbers are all
/// non-negative — as every sequence the tokenizer yields is — has only
/// non-negative literal leaves. Together with the evaluator's law on
/// addition-only trees this covers every tree the pipeline ever evaluates.
pub proof fn lemma_parsed_leaves_nonneg(toks: Seq<Token>, pos: int)
    requires
        numbers_nonneg(toks),
    ensures
        spec_parse_expr(toks, pos) matches Ok(ep) ==> leaves_nonneg(ep.0),
{
    lemma_parse_preserves_literals(toks, pos);
    if let Ok((e, p)) = spec_parse_expr(toks, pos) {
        lemma_number_values_nonneg(toks, pos, p);
        lemma_leaves_nonneg_from_values(e);
    }
}


} // verus!
