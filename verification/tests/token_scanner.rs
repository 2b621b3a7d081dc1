use json_parser::token_scanner::TokenScanner;
use json_parser::types::{Token, TokenType};

#[test]
fn token_scanner_test_is_at_end() {
    // Arrange
    let tokens = &vec![
        Token { token_type: TokenType::Boolean, lexeme: "true".to_string(), line: 1, position_start: 0, position_end: 0 },
        Token { token_type: TokenType::Boolean, lexeme: "true".to_string(), line: 1, position_start: 0, position_end: 0 },
        Token { token_type: TokenType::Boolean, lexeme: "true".to_string(), line: 1, position_start: 0, position_end: 0 },
        Token { token_type: TokenType::Boolean, lexeme: "true".to_string(), line: 1, position_start: 0, position_end: 0 },
    ];
    let mut scanner = TokenScanner::new(tokens);

    // Act
    scanner.advance();
    scanner.advance();
    let is_at_end = scanner.is_at_end();

    // Assert
    assert!(!is_at_end);
}

#[test]
fn token_scanner_test_is_at_end2() {
    // Arrange
    let tokens = &vec![
        Token { token_type: TokenType::Boolean, lexeme: "true".to_string(), line: 1, position_start: 0, position_end: 0 },
        Token { token_type: TokenType::Boolean, lexeme: "true".to_string(), line: 1, position_start: 0, position_end: 0 },
        Token { token_type: TokenType::Boolean, lexeme: "true".to_string(), line: 1, position_start: 0, position_end: 0 },
        Token { token_type: TokenType::Boolean, lexeme: "true".to_string(), line: 1, position_start: 0, position_end: 0 },
    ];
    let mut scanner = TokenScanner::new(tokens);

    // Act
    scanner.advance();
    scanner.advance();
    scanner.advance();
    let is_at_end = scanner.is_at_end();

    // Assert
    assert!(is_at_end);
}
