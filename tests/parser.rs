use cringe_lang::expr::{Expr, LiteralValue};
use cringe_lang::parser::{ParseError, Parser};
use cringe_lang::scanner::Scanner;
use cringe_lang::token::{Token, TokenType};

fn parse(source: &str) -> Result<Expr, ParseError> {
    let tokens = Scanner::new(source).scan_tokens().expect("failed to scan tokens");
    Parser::new(tokens).parse()
}

fn token(kind: TokenType, lexeme: &str) -> Token {
    Token::new(kind, lexeme.to_string(), None, 1)
}

fn number(text: &str) -> Expr {
    Expr::Literal { value: LiteralValue::Number(text.to_string()) }
}

#[test]
fn pretty_print_ast() {
    let minus_token = token(TokenType::Minus, "-");
    let num = number("123");
    let group = Expr::Grouping { expression: Box::from(number("45.67")) };
    let multi = token(TokenType::Star, "*");
    let ast = Expr::Binary {
        left: Box::from(Expr::Unary { operator: minus_token, right: Box::from(num) }),
        operator: multi,
        right: Box::from(group),
    };
    let result = ast.to_string();
    assert_eq!(result, "(* (- 123) (group 45.67))");
}

#[test]
fn numbers_print_in_decimal_form() {
    assert_eq!(LiteralValue::Number("5.0".to_string()).to_string(), "5");
    assert_eq!(LiteralValue::Number("007.50".to_string()).to_string(), "7.5");
    assert_eq!(LiteralValue::Number("0.06".to_string()).to_string(), "0.06");
    assert_eq!(LiteralValue::Number("100".to_string()).to_string(), "100");
    assert_eq!(LiteralValue::Number("0.0".to_string()).to_string(), "0");
}

#[test]
fn other_literals_print_as_written() {
    assert_eq!(LiteralValue::Str("hi there".to_string()).to_string(), "hi there");
    assert_eq!(LiteralValue::Sahi.to_string(), "sahi");
    assert_eq!(LiteralValue::Ghalat.to_string(), "ghalat");
    assert_eq!(LiteralValue::Khali.to_string(), "khali");
}

#[test]
fn multiplication_binds_tighter_than_addition() {
    let e = parse("1 + 2 * 3").unwrap();
    match &e {
        Expr::Binary { left, operator, right } => {
            assert_eq!(operator.token_type, TokenType::Plus);
            assert_eq!(left.to_string(), "1");
            match right.as_ref() {
                Expr::Binary { operator, .. } => assert_eq!(operator.token_type, TokenType::Star),
                _ => panic!("expected a product on the right"),
            }
        }
        _ => panic!("expected a sum"),
    }
    assert_eq!(e.to_string(), "(+ 1 (* 2 3))");
}

#[test]
fn subtraction_is_left_associative() {
    let e = parse("1 - 2 - 3").unwrap();
    match &e {
        Expr::Binary { left, operator, right } => {
            assert_eq!(operator.token_type, TokenType::Minus);
            assert_eq!(left.to_string(), "(- 1 2)");
            assert_eq!(right.to_string(), "3");
        }
        _ => panic!("expected a difference"),
    }
}

#[test]
fn full_precedence_ladder() {
    let e = parse("1 == 2 < 3 + 4 * -5").unwrap();
    assert_eq!(e.to_string(), "(== 1 (< 2 (+ 3 (* 4 (- 5)))))");
    let e = parse("!!sahi != (khali)").unwrap();
    assert_eq!(e.to_string(), "(!= (! (! sahi)) (group khali))");
    let e = parse("8 / 4 / 2 >= \"s\"").unwrap();
    assert_eq!(e.to_string(), "(>= (/ (/ 8 4) 2) s)");
}

#[test]
fn unterminated_grouping_fails() {
    let err = parse("(1 + 2").unwrap_err();
    assert_eq!(err.token.token_type, TokenType::Eof);
    assert_eq!(err.message, "expect ')' after expression");
}

#[test]
fn missing_operand_fails_at_the_token() {
    let err = parse("1 +\n )").unwrap_err();
    assert_eq!(err.token.token_type, TokenType::RightParen);
    assert_eq!(err.token.line_number, 2);
    assert_eq!(err.message, "expect expression");
    let err = parse("").unwrap_err();
    assert_eq!(err.token.token_type, TokenType::Eof);
}

#[test]
fn parse_stops_after_one_expression() {
    let tokens = Scanner::new("1 2").scan_tokens().unwrap();
    let mut parser = Parser::new(tokens);
    assert_eq!(parser.parse().unwrap().to_string(), "1");
    assert_eq!(parser.parse().unwrap().to_string(), "2");
    assert!(parser.parse().is_err());
}
