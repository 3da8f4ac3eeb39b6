use cringe_lang::scanner::{LexError, Scanner};
use cringe_lang::token::{get_keywords, is_alpha, is_alpha_numeric, is_digit, Object, Token, TokenType};

fn scan(source: &str) -> Result<Vec<Token>, LexError> {
    let mut scanner = Scanner::new(source);
    scanner.scan_tokens()
}

fn kinds(tokens: &[Token]) -> Vec<TokenType> {
    tokens.iter().map(|t| t.token_type).collect()
}

fn number_value(token: &Token) -> f64 {
    match token.literal.as_ref().unwrap() {
        Object::NumValue(text) => text.parse::<f64>().unwrap(),
        _ => panic!("Incorrect literal type"),
    }
}

#[test]
fn test_one_char_token() {
    let tokens = scan("( { * + - . , } ) ;").expect("failed to scan tokens");
    assert_eq!(tokens[0].token_type, TokenType::LeftParen);
    assert_eq!(tokens[1].token_type, TokenType::LeftBrace);
    assert_eq!(tokens[2].token_type, TokenType::Star);
    assert_eq!(tokens[3].token_type, TokenType::Plus);
    assert_eq!(tokens[4].token_type, TokenType::Minus);
    assert_eq!(tokens[5].token_type, TokenType::Dot);
    assert_eq!(tokens[6].token_type, TokenType::Comma);
    assert_eq!(tokens[7].token_type, TokenType::RightBrace);
    assert_eq!(tokens[8].token_type, TokenType::RightParen);
    assert_eq!(tokens[9].token_type, TokenType::SemiColon);
    assert_eq!(tokens[10].token_type, TokenType::Eof);
}

#[test]
fn test_two_char_token() {
    let tokens = scan("! != = == > >= < <=").expect("failed to scan tokens");
    assert_eq!(tokens[0].token_type, TokenType::Bang);
    assert_eq!(tokens[1].token_type, TokenType::BangEqual);
    assert_eq!(tokens[2].token_type, TokenType::Equal);
    assert_eq!(tokens[3].token_type, TokenType::EqualEqual);
    assert_eq!(tokens[4].token_type, TokenType::Greater);
    assert_eq!(tokens[5].token_type, TokenType::GreaterEqual);
    assert_eq!(tokens[6].token_type, TokenType::Less);
    assert_eq!(tokens[7].token_type, TokenType::LessEqual);
    assert_eq!(tokens[8].token_type, TokenType::Eof);
}

#[test]
fn test_string_literal() {
    let tokens = scan("\"This is a string\"").expect("failed to scan tokens");
    assert_eq!(tokens[0].token_type, TokenType::Str);
    match tokens[0].literal.as_ref().unwrap() {
        Object::StrValue(val) => assert_eq!(val, "This is a string"),
        _ => panic!("Incorrect literal type"),
    }
    assert_eq!(tokens[0].lexeme, "\"This is a string\"");
    assert_eq!(tokens.len(), 2);
}

#[test]
fn test_number_literal() {
    let tokens = scan("123.12 \n 5 \n 0.06").expect("failed to scan tokens");
    assert_eq!(tokens[0].token_type, TokenType::Number);
    assert_eq!(tokens[1].token_type, TokenType::Number);
    assert_eq!(tokens[2].token_type, TokenType::Number);
    assert_eq!(number_value(&tokens[0]), 123.12);
    assert_eq!(number_value(&tokens[1]), 5.0);
    assert_eq!(number_value(&tokens[2]), 0.06);
}

#[test]
fn test_identifier() {
    let tokens = scan("naam = \"Ali\"; \n jamaat = 8;").expect("failed to scan tokens");
    assert_eq!(tokens[0].token_type, TokenType::Identifier);
    assert_eq!(tokens[1].token_type, TokenType::Equal);
    assert_eq!(tokens[2].token_type, TokenType::Str);
    assert_eq!(tokens[3].token_type, TokenType::SemiColon);
    assert_eq!(tokens[4].token_type, TokenType::Identifier);
    assert_eq!(tokens[5].token_type, TokenType::Equal);
    assert_eq!(tokens[6].token_type, TokenType::Number);
    assert_eq!(tokens[7].token_type, TokenType::SemiColon);
}

#[test]
fn test_reserved_keywords() {
    let source = "jabtak agar warna likho wapis ghalat sahi khali kaam maanlo aur";
    let tokens = scan(source).expect("failed to scan tokens");
    assert_eq!(tokens[0].token_type, TokenType::Jabtak);
    assert_eq!(tokens[1].token_type, TokenType::Agar);
    assert_eq!(tokens[2].token_type, TokenType::Warna);
    assert_eq!(tokens[3].token_type, TokenType::Likho);
    assert_eq!(tokens[4].token_type, TokenType::Wapis);
    assert_eq!(tokens[5].token_type, TokenType::Ghalat);
    assert_eq!(tokens[6].token_type, TokenType::Sahi);
    assert_eq!(tokens[7].token_type, TokenType::Khali);
    assert_eq!(tokens[8].token_type, TokenType::Kaam);
    assert_eq!(tokens[9].token_type, TokenType::Maanlo);
    assert_eq!(tokens[10].token_type, TokenType::Aur);
}

#[test]
fn empty_input_gives_only_end_of_input() {
    let tokens = scan("").unwrap();
    assert_eq!(kinds(&tokens), vec![TokenType::Eof]);
    assert_eq!(tokens[0].lexeme, "");
    assert_eq!(tokens[0].line_number, 1);
}

#[test]
fn whitespace_and_comments_give_only_end_of_input() {
    let tokens = scan("  \t\r // a comment ( ) \n // another").unwrap();
    assert_eq!(kinds(&tokens), vec![TokenType::Eof]);
    assert_eq!(tokens[0].line_number, 2);
}

#[test]
fn exactly_one_end_of_input_at_the_end() {
    let tokens = scan("a + b // c\n(1.5 / 2)").unwrap();
    let ends = tokens.iter().filter(|t| t.token_type == TokenType::Eof).count();
    assert_eq!(ends, 1);
    assert_eq!(tokens.last().unwrap().token_type, TokenType::Eof);
}

#[test]
fn lexing_twice_gives_the_same_tokens() {
    let source = "maanlo x = \"a\nb\" + 12.5; // done";
    let first = scan(source).unwrap();
    let second = scan(source).unwrap();
    assert_eq!(first.len(), second.len());
    for (a, b) in first.iter().zip(second.iter()) {
        assert_eq!(a.token_type, b.token_type);
        assert_eq!(a.lexeme, b.lexeme);
        assert_eq!(a.line_number, b.line_number);
        assert_eq!(format!("{:?}", a.literal), format!("{:?}", b.literal));
    }
}

#[test]
fn lines_count_the_newlines_before_a_token() {
    let tokens = scan("a\n\nb // x\n\"s\nt\" c\n").unwrap();
    assert_eq!(kinds(&tokens), vec![TokenType::Identifier, TokenType::Identifier, TokenType::Str, TokenType::Identifier, TokenType::Eof]);
    assert_eq!(tokens[0].line_number, 1);
    assert_eq!(tokens[1].line_number, 3);
    assert_eq!(tokens[2].line_number, 4);
    assert_eq!(tokens[3].line_number, 5);
    assert_eq!(tokens[4].line_number, 6);
}

#[test]
fn slash_and_comment() {
    let tokens = scan("4 / 2 // half").unwrap();
    assert_eq!(kinds(&tokens), vec![TokenType::Number, TokenType::Slash, TokenType::Number, TokenType::Eof]);
    assert_eq!(tokens[1].lexeme, "/");
}

#[test]
fn trailing_dot_is_not_part_of_a_number() {
    let tokens = scan("5.").unwrap();
    assert_eq!(kinds(&tokens), vec![TokenType::Number, TokenType::Dot, TokenType::Eof]);
    assert_eq!(tokens[0].lexeme, "5");
    let tokens = scan("1.2.3").unwrap();
    assert_eq!(kinds(&tokens), vec![TokenType::Number, TokenType::Dot, TokenType::Number, TokenType::Eof]);
    assert_eq!(tokens[0].lexeme, "1.2");
    assert_eq!(tokens[2].lexeme, "3");
}

#[test]
fn near_keywords_are_identifiers() {
    let tokens = scan("jabtakx Jabtak _ya ya kaam2 aur").unwrap();
    assert_eq!(kinds(&tokens), vec![TokenType::Identifier, TokenType::Identifier, TokenType::Identifier, TokenType::Ya, TokenType::Identifier, TokenType::Aur, TokenType::Eof]);
    assert!(tokens[0].literal.is_none());
    assert_eq!(tokens[0].lexeme, "jabtakx");
}

#[test]
fn unexpected_character_reports_its_line() {
    let err = scan("@").unwrap_err();
    assert_eq!(err.line, 1);
    assert_eq!(err.message, "unexpected character");
    let err = scan("1 +\n\n @ 2").unwrap_err();
    assert_eq!(err.line, 3);
}

#[test]
fn unterminated_string_reports_the_line_where_input_ends() {
    let err = scan("x = \"abc\ndef").unwrap_err();
    assert_eq!(err.line, 2);
    assert_eq!(err.message, "unterminated string");
}

#[test]
fn string_may_span_lines_and_starts_on_its_first() {
    let tokens = scan("\"a\nb\" x").unwrap();
    assert_eq!(tokens[0].line_number, 1);
    assert_eq!(tokens[1].line_number, 2);
    match tokens[0].literal.as_ref().unwrap() {
        Object::StrValue(v) => assert_eq!(v, "a\nb"),
        _ => panic!("Incorrect literal type"),
    }
}

#[test]
fn character_classes() {
    assert!(is_digit('0') && is_digit('9') && !is_digit('a') && !is_digit('\u{130}'));
    assert!(is_alpha('a') && is_alpha('Z') && is_alpha('_') && !is_alpha('1'));
    assert!(is_alpha_numeric('7') && is_alpha_numeric('q') && !is_alpha_numeric('-'));
}

#[test]
fn keyword_table_has_every_reserved_word() {
    let table = get_keywords();
    assert_eq!(table.len(), 12);
    assert!(table.iter().any(|(w, k)| w == "jabtak" && *k == TokenType::Jabtak));
    assert!(table.iter().any(|(w, k)| w == "ya" && *k == TokenType::Ya));
}

#[test]
fn numbers_separated_by_spaces() {
    let tokens = scan("123.12 5 0.06").unwrap();
    assert_eq!(kinds(&tokens), vec![TokenType::Number, TokenType::Number, TokenType::Number, TokenType::Eof]);
    assert_eq!(number_value(&tokens[0]), 123.12);
    assert_eq!(number_value(&tokens[1]), 5.0);
    assert_eq!(number_value(&tokens[2]), 0.06);
    assert_eq!(tokens[0].lexeme, "123.12");
}
