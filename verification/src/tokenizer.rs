use vstd::prelude::*;
use crate::token::{number_token_nonneg, numbers_nonneg, wf_tokens, Op, Token};

verus! {

/// How scanning can fail: a character outside the supported set, or a digit
/// run whose value does not fit in an `i64`.
#[derive(Clone, Copy, Debug, PartialEq, Eq, Structural)]
pub enum LexError {
    InvalidChar(char),
    NumberTooLarge,
}

pub open spec fn is_space(c: char) -> bool {
    c == ' ' || c == '\n' || c == '\t'
}

pub open spec fn is_digit(c: char) -> bool {
    '0' <= c && c <= '9'
}

pub open spec fn digit_val(c: char) -> int {
    c as int - '0' as int
}

pub open spec fn is_symbol(c: char) -> bool {
    c == '+' || c == '-' || c == '*' || c == '/' || c == '(' || c == ')'
}

/// The token a single symbol character stands for. Meaningful only for
/// characters satisfying `is_symbol`.
pub open spec fn symbol_token(c: char) -> Token {
    if c == '+' {
        Token::Operator(Op::Add)
    } else if c == '-' {
        Token::Operator(Op::Sub)
    } else if c == '*' {
        Token::Operator(Op::Mul)
    } else if c == '/' {
        Token::Operator(Op::Div)
    } else if c == '(' {
        Token::LeftParen
    } else {
        Token::RightParen
    }
}

/// The index just past the maximal run of digits starting at `pos`.
/// (The inner range guard only makes termination of the definition evident;
/// `lemma_digit_run_end` shows the clamped branch is never taken.)
pub open spec fn digit_run_end(s: Seq<char>, pos: int) -> int
    decreases s.len() - pos,
{
    if 0 <= pos < s.len() && is_digit(s[pos]) {
        let e = digit_run_end(s, pos + 1);
        if pos + 1 <= e <= s.len() {
            e
        } else {
            pos + 1
        }
    } else {
        pos
    }
}

/// The base-10 value of the digit characters `s[i..j]`.
pub open spec fn digit_run_val(s: Seq<char>, i: int, j: int) -> int
    decreases j - i,
{
    if i < j {
        digit_run_val(s, i, j - 1) * 10 + digit_val(s[j - 1])
    } else {
        0
    }
}

/// The tokens of the text from position `pos` on: whitespace carries no
/// token, a maximal digit run becomes one `Number`, each operator or
/// parenthesis becomes its own token, any other character is an error, and
/// the end of the text yields the `EndOfInput` sentinel.
pub open spec fn spec_tokenize_at(s: Seq<char>, pos: int) -> Result<Seq<Token>, LexError>
    decreases s.len() - pos,
{
    if pos < 0 || pos >= s.len() {
        Ok(seq![Token::EndOfInput])
    } else if is_space(s[pos]) {
        spec_tokenize_at(s, pos + 1)
    } else if is_digit(s[pos]) {
        let e = digit_run_end(s, pos);
        let v = digit_run_val(s, pos, e);
        if v > i64::MAX {
            Err(LexError::NumberTooLarge)
        } else {
            match spec_tokenize_at(s, e) {
                Ok(rest) => Ok(seq![Token::Number(v as i64)] + rest),
                Err(err) => Err(err),
            }
        }
    } else if is_symbol(s[pos]) {
        match spec_tokenize_at(s, pos + 1) {
            Ok(rest) => Ok(seq![symbol_token(s[pos])] + rest),
            Err(err) => Err(err),
        }
    } else {
        Err(LexError::InvalidChar(s[pos]))
    }
}

/// The token sequence of a whole text.
pub open spec fn spec_tokenize(s: Seq<char>) -> Result<Seq<Token>, LexError> {
    spec_tokenize_at(s, 0)
}

/// `digit_run_end` points at the first non-digit at or after `pos`.
proof fn lemma_digit_run_end(s: Seq<char>, pos: int)
    requires
        0 <= pos <= s.len(),
    ensures
        pos <= digit_run_end(s, pos) <= s.len(),
        forall|k: int| pos <= k < digit_run_end(s, pos) ==> is_digit(#[trigger] s[k]),
        digit_run_end(s, pos) == s.len() || !is_digit(s[digit_run_end(s, pos)]),
    decreases s.len() - pos,
{
    if pos < s.len() && is_digit(s[pos]) {
        lemma_digit_run_end(s, pos + 1);
    }
}

/// Digit runs have non-negative values that only grow as the run extends.
proof fn lemma_digit_run_val_grows(s: Seq<char>, i: int, k: int, j: int)
    requires
        i <= k <= j,
        forall|m: int| i <= m < j ==> 0 <= #[trigger] digit_val(s[m]),
    ensures
        0 <= digit_run_val(s, i, k) <= digit_run_val(s, i, j),
    decreases j - i,
{
    if k < j {
        lemma_digit_run_val_grows(s, i, k, j - 1);
        assert(0 <= digit_val(s[j - 1]));
    } else if i < j {
        lemma_digit_run_val_grows(s, i, j - 1, j - 1);
        assert(0 <= digit_val(s[j - 1]));
    }
}

/// Whatever text it scans, a successful tokenization is non-empty, ends in
/// the `EndOfInput` sentinel, and holds the sentinel nowhere else.
proof fn lemma_spec_tokenize_wf(s: Seq<char>, pos: int)
    ensures
        spec_tokenize_at(s, pos) matches Ok(toks) ==> wf_tokens(toks),
    decreases s.len() - pos,
{
    if pos < 0 || pos >= s.len() {
    } else if is_space(s[pos]) {
        lemma_spec_tokenize_wf(s, pos + 1);
    } else if is_digit(s[pos]) {
        lemma_spec_tokenize_wf(s, digit_run_end(s, pos));
    } else if is_symbol(s[pos]) {
        lemma_spec_tokenize_wf(s, pos + 1);
    }
}

/// Every `Number` token a successful scan yields holds a non-negative value:
/// each is the value of a digit run.
pub proof fn lemma_spec_tokenize_numbers_nonneg(s: Seq<char>, pos: int)
    ensures
        spec_tokenize_at(s, pos) matches Ok(toks) ==> numbers_nonneg(toks),
    decreases s.len() - pos,
{
    if pos < 0 || pos >= s.len() {
        let toks = seq![Token::EndOfInput];
        assert forall|i: int| 0 <= i < toks.len() implies #[trigger] number_token_nonneg(
            toks[i],
        ) by {
            assert(toks[i] == Token::EndOfInput);
        }
    } else if is_space(s[pos]) {
        lemma_spec_tokenize_numbers_nonneg(s, pos + 1);
    } else if is_digit(s[pos]) {
        let e = digit_run_end(s, pos);
        let v = digit_run_val(s, pos, e);
        lemma_digit_run_end(s, pos);
        assert forall|m: int| pos <= m < e implies 0 <= #[trigger] digit_val(s[m]) by {
            assert(is_digit(s[m]));
        }
        lemma_digit_run_val_grows(s, pos, pos, e);
        lemma_spec_tokenize_numbers_nonneg(s, e);
        if v <= i64::MAX {
            if let Ok(rest) = spec_tokenize_at(s, e) {
                let toks = seq![Token::Number(v as i64)] + rest;
                assert forall|i: int| 0 <= i < toks.len() implies #[trigger] number_token_nonneg(
                    toks[i],
                ) by {
                    if i == 0 {
                        assert(toks[0] == Token::Number(v as i64));
                    } else {
                        assert(toks[i] == rest[i - 1]);
                        assert(number_token_nonneg(rest[i - 1]));
                    }
                }
            }
        }
    } else if is_symbol(s[pos]) {
        lemma_spec_tokenize_numbers_nonneg(s, pos + 1);
        if let Ok(rest) = spec_tokenize_at(s, pos + 1) {
            let toks = seq![symbol_token(s[pos])] + rest;
            assert forall|i: int| 0 <= i < toks.len() implies #[trigger] number_token_nonneg(
                toks[i],
            ) by {
                if i == 0 {
                    assert(toks[0] == symbol_token(s[pos]));
                } else {
                    assert(toks[i] == rest[i - 1]);
                    assert(number_token_nonneg(rest[i - 1]));
                }
            }
        }
    }
}

/// The tokens already emitted, followed by whatever the rest of the scan
/// yields; an error anywhere in the rest is the error of the whole.
spec fn emitted_then(done: Seq<Token>, rest: Result<Seq<Token>, LexError>) -> Result<
    Seq<Token>,
    LexError,
> {
    match rest {
        Ok(ts) => Ok(done + ts),
        Err(e) => Err(e),
    }
}

/// Scan the characters left to right into tokens: skip whitespace, turn each
/// maximal digit run into one `Number`, each of `+ - * / ( )` into its own
/// token, fail on anything else, and append the `EndOfInput` sentinel.
pub fn tokenize(code: Vec<char>) -> (r: Result<Vec<Token>, LexError>)
    ensures
        match r {
            Ok(toks) => spec_tokenize(code@) == Ok::<Seq<Token>, LexError>(toks@) && wf_tokens(
                toks@,
            ),
            Err(e) => spec_tokenize(code@) == Err::<Seq<Token>, LexError>(e),
        },
{
    let ghost s = code@;
    let mut pos: usize = 0;
    let mut res: Vec<Token> = Vec::new();

    while pos < code.len()
        invariant
            pos <= code.len(),
            s == code@,
            spec_tokenize(s) == emitted_then(res@, spec_tokenize_at(s, pos as int)),
        decreases code.len() - pos,
    {
        let ghost iter_start = pos as int;
        while pos < code.len() && (code[pos] == ' ' || code[pos] == '\n' || code[pos] == '\t')
            invariant
                iter_start <= pos <= code.len(),
                s == code@,
                spec_tokenize(s) == emitted_then(res@, spec_tokenize_at(s, pos as int)),
            decreases code.len() - pos,
        {
            pos += 1;
        }
        if pos < code.len() {
            let c = code[pos];
            if c >= '0' && c <= '9' {
                let ghost start = pos as int;
                let ghost run_end = digit_run_end(s, start);
                proof {
                    lemma_digit_run_end(s, start);
                }
                let mut num: i64 = 0;
                while pos < code.len() && code[pos] >= '0' && code[pos] <= '9'
                    invariant
                        start <= pos <= code.len(),
                        s == code@,
                        is_digit(s[start]),
                        run_end == digit_run_end(s, start),
                        start <= run_end <= s.len(),
                        forall|k: int| start <= k < run_end ==> is_digit(#[trigger] s[k]),
                        run_end == s.len() || !is_digit(s[run_end]),
                        forall|k: int| start <= k < pos ==> is_digit(#[trigger] s[k]),
                        pos <= run_end,
                        0 <= num == digit_run_val(s, start, pos as int),
                        spec_tokenize(s) == emitted_then(res@, spec_tokenize_at(s, start)),
                    decreases code.len() - pos,
                {
                    let d: i64 = (code[pos] as u32 - 48) as i64;
                    proof {
                        assert(d == digit_val(s[pos as int]));
                        assert(digit_run_val(s, start, pos + 1) == num * 10 + d);
                    }
                    let stepped = match num.checked_mul(10) {
                        Some(m) => m.checked_add(d),
                        None => None,
                    };
                    match stepped {
                        Some(v) => {
                            num = v;
                        },
                        None => {
                            proof {
                                assert forall|m: int| start <= m < run_end implies 0
                                    <= #[trigger] digit_val(s[m]) by {
                                    assert(is_digit(s[m]));
                                }
                                lemma_digit_run_val_grows(s, start, pos + 1, run_end);
                                assert(digit_run_val(s, start, run_end) > i64::MAX);
                                assert(spec_tokenize_at(s, start) == Err::<Seq<Token>, LexError>(
                                    LexError::NumberTooLarge,
                                ));
                            }
                            return Err(LexError::NumberTooLarge);
                        },
                    }
                    pos += 1;
                }
                proof {
                    assert(pos == run_end);
                    assert(digit_run_val(s, start, run_end) == num);
                    assert(spec_tokenize_at(s, start) == (match spec_tokenize_at(s, run_end) {
                        Ok(rest) => Ok(seq![Token::Number(num)] + rest),
                        Err(err) => Err::<Seq<Token>, LexError>(err),
                    }));
                }
                let ghost old_res = res@;
                res.push(Token::Number(num));
                proof {
                    if let Ok(rest) = spec_tokenize_at(s, run_end) {
                        assert(old_res + (seq![Token::Number(num)] + rest) =~= res@ + rest);
                    }
                }
            } else if c == '+' || c == '-' || c == '*' || c == '/' || c == '(' || c == ')' {
                let tok = if c == '+' {
                    Token::Operator(Op::Add)
                } else if c == '-' {
                    Token::Operator(Op::Sub)
                } else if c == '*' {
                    Token::Operator(Op::Mul)
                } else if c == '/' {
                    Token::Operator(Op::Div)
                } else if c == '(' {
                    Token::LeftParen
                } else {
                    Token::RightParen
                };
                proof {
                    assert(tok == symbol_token(s[pos as int]));
                }
                let ghost old_res = res@;
                res.push(tok);
                proof {
                    if let Ok(rest) = spec_tokenize_at(s, pos + 1) {
                        assert(old_res + (seq![tok] + rest) =~= res@ + rest);
                    }
                }
                pos += 1;
            } else {
                return Err(LexError::InvalidChar(c));
            }
        }
    }
    let ghost old_res = res@;
    res.push(Token::EndOfInput);
    proof {
        assert(old_res + seq![Token::EndOfInput] =~= res@);
        lemma_spec_tokenize_wf(s, 0);
    }
    Ok(res)
}

} // verus!
