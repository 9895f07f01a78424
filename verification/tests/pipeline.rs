use calc::interpret;
use calc::Error;
use calc::eval::EvalError;
use calc::tokenizer::LexError;

fn run(text: &str) -> Result<i64, Error> {
    interpret(text.chars().collect())
}

#[test]
fn addition_only_sums_the_literals() {
    assert_eq!(run("1+2+3+4"), Ok(10));
    assert_eq!(run("0+0"), Ok(0));
    assert_eq!(run("12+34"), Ok(46));
}

#[test]
fn precedence_of_multiplication() {
    assert_eq!(run("2+3*4"), Ok(14));
    assert_eq!(run("2*3+4"), Ok(10));
}

#[test]
fn left_associativity() {
    assert_eq!(run("10-2-3"), Ok(5));
    assert_eq!(run("20/4/5"), Ok(1));
}

#[test]
fn parentheses_override_precedence() {
    assert_eq!(run("(2+3)*4"), Ok(20));
    assert_eq!(run("2*(3+4)"), Ok(14));
}

#[test]
fn whitespace_is_insignificant() {
    assert_eq!(run("  2 +  3 "), Ok(5));
    assert_eq!(run("2+3"), Ok(5));
    assert_eq!(run("\t1 * \n 8"), Ok(8));
}

#[test]
fn division_truncates_toward_zero() {
    assert_eq!(run("7/2"), Ok(3));
    assert_eq!(run("9/4"), Ok(2));
    assert_eq!(run("(0-7)/2"), Ok(-3));
}

#[test]
fn division_by_zero_subexpression_fails() {
    assert_eq!(run("5/(2-2)"), Err(Error::Eval(EvalError::DivisionByZero)));
    assert_eq!(run("1/0"), Err(Error::Eval(EvalError::DivisionByZero)));
}

#[test]
fn malformed_input_fails() {
    assert!(matches!(run("(2+3"), Err(Error::Parse(_))));
    assert!(matches!(run("+"), Err(Error::Parse(_))));
    assert_eq!(run("2&3"), Err(Error::Lex(LexError::InvalidChar('&'))));
    assert!(matches!(run(""), Err(Error::Parse(_))));
    assert!(matches!(run("1+"), Err(Error::Parse(_))));
    assert!(matches!(run("()"), Err(Error::Parse(_))));
}

#[test]
fn trailing_tokens_are_ignored() {
    assert_eq!(run("2+3)"), Ok(5));
    assert_eq!(run("2+3 4"), Ok(5));
}

#[test]
fn rerunning_yields_the_same_result() {
    let first = run("(8-2)*(3+4)");
    let second = run("(8-2)*(3+4)");
    assert_eq!(first, Ok(42));
    assert_eq!(first, second);
}

#[test]
fn literal_at_the_integer_limit() {
    assert_eq!(run("9223372036854775807"), Ok(i64::MAX));
    assert_eq!(
        run("9223372036854775808"),
        Err(Error::Lex(LexError::NumberTooLarge))
    );
}

#[test]
fn arithmetic_overflow_fails() {
    assert_eq!(run("9223372036854775807+1"), Err(Error::Eval(EvalError::Overflow)));
    assert_eq!(run("0-9223372036854775807-2"), Err(Error::Eval(EvalError::Overflow)));
    assert_eq!(run("3037000500*3037000500"), Err(Error::Eval(EvalError::Overflow)));
}

#[test]
fn nested_parentheses() {
    assert_eq!(run("((((7))))"), Ok(7));
    assert_eq!(run("(1+(2*(3+4)))"), Ok(15));
}
