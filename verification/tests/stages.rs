use calc::ast::Expr;
use calc::eval::{evaluate, EvalError};
use calc::parser::Parser;
use calc::token::{Op, Token};
use calc::tokenizer::{tokenize, LexError};

fn toks(text: &str) -> Vec<Token> {
    tokenize(text.chars().collect()).expect("tokenizes")
}

#[test]
fn tokenize_splits_the_text() {
    assert_eq!(
        toks("2+3*4"),
        vec![
            Token::Number(2),
            Token::Operator(Op::Add),
            Token::Number(3),
            Token::Operator(Op::Mul),
            Token::Number(4),
            Token::EndOfInput,
        ]
    );
}

#[test]
fn tokenize_merges_digit_runs_and_skips_whitespace() {
    assert_eq!(
        toks(" 10 \t( 203)\n"),
        vec![
            Token::Number(10),
            Token::LeftParen,
            Token::Number(203),
            Token::RightParen,
            Token::EndOfInput,
        ]
    );
}

#[test]
fn tokenize_of_empty_input_is_the_sentinel_alone() {
    assert_eq!(toks(""), vec![Token::EndOfInput]);
    assert_eq!(toks("   "), vec![Token::EndOfInput]);
}

#[test]
fn tokenize_rejects_an_unsupported_character() {
    assert_eq!(
        tokenize("2&3".chars().collect()),
        Err(LexError::InvalidChar('&'))
    );
    assert_eq!(
        tokenize("99999999999999999999".chars().collect()),
        Err(LexError::NumberTooLarge)
    );
}

#[test]
fn parser_builds_a_precedence_shaped_tree() {
    let tokens = toks("2+3*4");
    let mut parser = Parser::new(&tokens);
    let tree = parser.parse_expr().expect("parses");
    match tree {
        Expr::BinaryOperation { operator: Op::Add, left, right } => {
            assert!(matches!(*left, Expr::Literal { value: 2 }));
            match *right {
                Expr::BinaryOperation { operator: Op::Mul, left, right } => {
                    assert!(matches!(*left, Expr::Literal { value: 3 }));
                    assert!(matches!(*right, Expr::Literal { value: 4 }));
                },
                other => panic!("expected a product on the right, got {:?}", other),
            }
        },
        other => panic!("expected a sum at the root, got {:?}", other),
    }
}

#[test]
fn parser_builds_a_left_leaning_tree() {
    let tokens = toks("10-2-3");
    let mut parser = Parser::new(&tokens);
    let tree = parser.parse_expr().expect("parses");
    match tree {
        Expr::BinaryOperation { operator: Op::Sub, left, right } => {
            assert!(matches!(*right, Expr::Literal { value: 3 }));
            match *left {
                Expr::BinaryOperation { operator: Op::Sub, left, right } => {
                    assert!(matches!(*left, Expr::Literal { value: 10 }));
                    assert!(matches!(*right, Expr::Literal { value: 2 }));
                },
                other => panic!("expected the first difference on the left, got {:?}", other),
            }
        },
        other => panic!("expected a difference at the root, got {:?}", other),
    }
}

#[test]
fn parser_keeps_every_literal_of_the_tokens() {
    let tokens = toks("(1+20)*3/40");
    let mut parser = Parser::new(&tokens);
    let tree = parser.parse_expr().expect("parses");
    let mut leaves: Vec<i64> = Vec::new();
    collect_leaves(&tree, &mut leaves);
    let numbers: Vec<i64> = tokens
        .iter()
        .filter_map(|t| match t {
            Token::Number(v) => Some(*v),
            _ => None,
        })
        .collect();
    assert_eq!(leaves, numbers);
    assert_eq!(leaves, vec![1, 20, 3, 40]);
}

fn collect_leaves(tree: &Expr, out: &mut Vec<i64>) {
    match tree {
        Expr::Literal { value } => out.push(*value),
        Expr::BinaryOperation { left, right, .. } => {
            collect_leaves(left, out);
            collect_leaves(right, out);
        },
    }
}

#[test]
fn cursor_advances_token_by_token() {
    let tokens = toks("1+2");
    let mut parser = Parser::new(&tokens);
    assert_eq!(parser.next(), Token::Number(1));
    assert_eq!(parser.eat(Token::Operator(Op::Add)), Ok(Token::Operator(Op::Add)));
    assert!(parser.eat(Token::Operator(Op::Mul)).is_err());
    assert_eq!(parser.next(), Token::Number(2));
}

#[test]
fn evaluate_combines_subtree_values() {
    let seven_halves = Expr::BinaryOperation {
        operator: Op::Div,
        left: Box::new(Expr::Literal { value: 7 }),
        right: Box::new(Expr::Literal { value: 2 }),
    };
    assert_eq!(evaluate(&seven_halves), Ok(3));

    let by_zero = Expr::BinaryOperation {
        operator: Op::Div,
        left: Box::new(Expr::Literal { value: 7 }),
        right: Box::new(Expr::Literal { value: 0 }),
    };
    assert_eq!(evaluate(&by_zero), Err(EvalError::DivisionByZero));

    let too_big = Expr::BinaryOperation {
        operator: Op::Add,
        left: Box::new(Expr::Literal { value: i64::MAX }),
        right: Box::new(Expr::Literal { value: 1 }),
    };
    assert_eq!(evaluate(&too_big), Err(EvalError::Overflow));
}
