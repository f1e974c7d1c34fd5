use prefix_calc::eval::{eval, EvalError};
use prefix_calc::lexer::{tokenize, LexError, Token};
use prefix_calc::parser::{check_parens, parse, parse_expr, Ast, Operator, ParseError};
use prefix_calc::{evaluate, CalcError};

fn run(src: &str) -> Result<i64, CalcError> {
    evaluate(src.to_string())
}

#[test]
fn sum_of_three_tokens_tree_and_value() {
    let tokens = tokenize("(+ 1 2 3)".to_string()).unwrap();
    assert_eq!(
        tokens,
        vec![
            Token::LeftParen,
            Token::Symbol('+'),
            Token::Number(1),
            Token::Number(2),
            Token::Number(3),
            Token::RightParen
        ]
    );
    let (ast, used) = parse(&tokens).unwrap();
    assert_eq!(used, 6);
    match &ast {
        Ast::Operation(Operator::Add, args) => {
            assert_eq!(args.len(), 3);
            assert!(matches!(args[0], Ast::Literal(1)));
            assert!(matches!(args[1], Ast::Literal(2)));
            assert!(matches!(args[2], Ast::Literal(3)));
        }
        other => panic!("unexpected tree {:?}", other),
    }
    assert_eq!(eval(ast), Ok(6));
}

#[test]
fn nested_product() {
    assert_eq!(run("(* 2 (+ 1 1))"), Ok(4));
}

#[test]
fn square_root_of_nine() {
    assert_eq!(run("(r 9)"), Ok(3));
}

#[test]
fn square_root_truncates() {
    assert_eq!(run("(r 10)"), Ok(3));
    assert_eq!(run("(r 0)"), Ok(0));
    assert_eq!(run("(r 9223372036854775807)"), Ok(3037000499));
}

#[test]
fn square_root_of_negative_is_zero() {
    assert_eq!(run("(r (- 0 4))"), Ok(0));
}

#[test]
fn square_root_ignores_extra_children() {
    assert_eq!(run("(r 16 (/ 1 0))"), Ok(4));
}

#[test]
fn remainder_of_ten_by_three() {
    assert_eq!(run("(% 10 3)"), Ok(1));
}

#[test]
fn division_by_zero_is_fatal() {
    assert_eq!(run("(/ 7 0)"), Err(CalcError::Eval(EvalError::DivisionByZero)));
    assert_eq!(run("(% 7 0)"), Err(CalcError::Eval(EvalError::DivisionByZero)));
}

#[test]
fn missing_close_paren_is_fatal() {
    assert_eq!(run("(+ 1 2"), Err(CalcError::Parse(ParseError::Unbalanced)));
}

#[test]
fn missing_close_paren_without_pre_pass() {
    let tokens = tokenize("(+ 1 2".to_string()).unwrap();
    assert_eq!(parse_expr(&tokens, 0).map(|(_, n)| n), Err(ParseError::UnexpectedEnd));
}

#[test]
fn misordered_parens_rejected_structurally() {
    let tokens = tokenize(") (".to_string()).unwrap();
    assert_eq!(check_parens(&tokens), Ok(()));
    assert_eq!(parse(&tokens).map(|(_, n)| n), Err(ParseError::UnexpectedToken { at: 0 }));
}

#[test]
fn misordered_before_any_expression_rejected() {
    assert_eq!(
        run(") (+ 1 2"),
        Err(CalcError::Parse(ParseError::UnexpectedToken { at: 0 }))
    );
}

#[test]
fn misordered_after_first_expression_is_not_read() {
    let tokens = tokenize("(+ 1 ) ) (".to_string()).unwrap();
    assert_eq!(check_parens(&tokens), Ok(()));
    assert_eq!(parse(&tokens).map(|(_, n)| n), Ok(4));
    assert_eq!(run("(+ 1 ) ) ("), Ok(1));
}

#[test]
fn trailing_tokens_are_ignored() {
    let tokens = tokenize("5 6 7".to_string()).unwrap();
    let (ast, used) = parse(&tokens).unwrap();
    assert_eq!(used, 1);
    assert!(used <= tokens.len());
    assert_eq!(eval(ast), Ok(5));
}

#[test]
fn whitespace_between_tokens_does_not_matter() {
    assert_eq!(run("(+ 1 2 3)"), Ok(6));
    assert_eq!(run("  (+\t1\n 2   3 )  "), Ok(6));
    assert_eq!(run("(+ 1(* 2 3))"), run(" ( + 1 ( * 2 3 ) ) "));
}

#[test]
fn folding_is_left_to_right() {
    assert_eq!(run("(- 10 3 2)"), Ok(5));
    assert_eq!(run("(/ 100 5 2)"), Ok(10));
    assert_eq!(run("(% 17 10 4)"), Ok(3));
}

#[test]
fn division_truncates_toward_zero() {
    assert_eq!(run("(/ (- 0 7) 2)"), Ok(-3));
    assert_eq!(run("(% (- 0 7) 2)"), Ok(-1));
}

#[test]
fn unary_forms_return_the_child() {
    assert_eq!(run("(+ 5)"), Ok(5));
    assert_eq!(run("(- 5)"), Ok(5));
    assert_eq!(run("(/ 5)"), Ok(5));
}

#[test]
fn empty_operation_is_fatal() {
    assert_eq!(run("(+)"), Err(CalcError::Eval(EvalError::NoOperands)));
    assert_eq!(run("(r)"), Err(CalcError::Eval(EvalError::NoOperands)));
}

#[test]
fn overflow_while_folding_is_fatal() {
    assert_eq!(
        run("(* 9223372036854775807 2)"),
        Err(CalcError::Eval(EvalError::Overflow))
    );
    assert_eq!(
        run("(+ 9223372036854775807 1)"),
        Err(CalcError::Eval(EvalError::Overflow))
    );
}

#[test]
fn largest_literal_is_accepted() {
    assert_eq!(run("9223372036854775807"), Ok(i64::MAX));
}

#[test]
fn literal_overflow_is_a_lexical_fault() {
    assert_eq!(
        tokenize("(+ 1 9223372036854775808)".to_string()),
        Err(LexError::Overflow { at: 5, digits: "9223372036854775808".to_string() })
    );
}

#[test]
fn unknown_character_reports_the_rest() {
    assert_eq!(
        tokenize("(+ 1 x 2)".to_string()),
        Err(LexError::InvalidChar { at: 5, rest: "x 2)".to_string() })
    );
}

#[test]
fn minus_is_never_a_sign() {
    assert_eq!(
        tokenize("-5".to_string()),
        Ok(vec![Token::Symbol('-'), Token::Number(5)])
    );
    assert_eq!(run("-5"), Err(CalcError::Parse(ParseError::UnexpectedToken { at: 0 })));
}

#[test]
fn empty_source_has_no_expression() {
    assert_eq!(tokenize("   ".to_string()), Ok(vec![]));
    assert_eq!(run(""), Err(CalcError::Parse(ParseError::UnexpectedEnd)));
}

#[test]
fn operator_must_follow_open_paren() {
    assert_eq!(
        run("(1 2)"),
        Err(CalcError::Parse(ParseError::MissingOperator { at: 1 }))
    );
}

#[test]
fn unknown_symbol_token_is_rejected() {
    let tokens = vec![Token::LeftParen, Token::Symbol('^'), Token::Number(1), Token::RightParen];
    assert_eq!(
        parse(&tokens).map(|(_, n)| n),
        Err(ParseError::UnknownSymbol { at: 1, symbol: '^' })
    );
}

#[test]
fn leading_zeros_are_allowed() {
    assert_eq!(run("(+ 007 0010)"), Ok(17));
}

#[test]
fn unicode_whitespace_separates_tokens() {
    assert_eq!(run("(+\u{a0}1\u{3000}2)"), Ok(3));
}

#[test]
fn non_ascii_digit_is_not_a_literal() {
    assert_eq!(
        tokenize("(+ 1 \u{663})".to_string()),
        Err(LexError::InvalidChar { at: 5, rest: "\u{663})".to_string() })
    );
}
