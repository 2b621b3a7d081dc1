use json_parser::source_scanner::SourceScanner;
use json_parser::types::TokenType;

#[test]
fn source_scanner_test_is_at_end() {
    // Arrange
    let mut scanner = SourceScanner::new("abc");

    // Act
    scanner.advance();
    scanner.advance();
    let is_at_end = scanner.is_at_end();

    // Assert
    assert!(!is_at_end);
}

#[test]
fn source_scanner_test_is_at_end2() {
    // Arrange
    let mut scanner = SourceScanner::new("abc");

    // Act
    scanner.advance();
    scanner.advance();
    scanner.advance();
    let is_at_end = scanner.is_at_end();

    // Assert
    assert!(is_at_end);
}

#[test]
fn test_add_token() {
    // Arrange
    let mut scanner = SourceScanner::new("abc");

    // Act
    scanner.advance();
    scanner.advance();
    scanner.add_token(TokenType::String);
    let token = &scanner.tokens[0];

    // Assert
    assert!(token.token_type == TokenType::String);
    assert!(token.lexeme == "ab");
}

#[test]
fn test_report_error() {
    // Arrange
    let mut scanner = SourceScanner::new("abc");

    // Act
    scanner.advance();
    scanner.advance();
    scanner.report_error("test".to_string());
    let error = &scanner.errors[0];

    // Assert
    assert!(error.message == "test");
    assert!(error.lexeme == "ab");
}

#[test]
fn test_peek() {
    // Arrange
    let scanner = SourceScanner::new("abc");

    // Act
    let peek = scanner.peek();

    // Assert
    assert!(peek == 'a');
}

#[test]
fn test_advance_peek() {
    // Arrange
    let mut scanner = SourceScanner::new("abc");

    // Act
    scanner.advance();
    let peek = scanner.peek();

    // Assert
    assert!(peek == 'b');
}

#[test]
fn test_advance() {
    let mut scanner = SourceScanner::new("ab\ncd");
    assert_eq!(scanner.advance(), 'a');
    assert_eq!(scanner.cursor, 1);
    assert_eq!(scanner.line, 1);
    assert_eq!(scanner.advance(), 'b');
    assert_eq!(scanner.cursor, 2);
    assert_eq!(scanner.line, 1);
    assert_eq!(scanner.advance(), '\n');
    assert_eq!(scanner.cursor, 3);
    assert_eq!(scanner.line, 2);
    assert_eq!(scanner.advance(), 'c');
    assert_eq!(scanner.cursor, 4);
    assert_eq!(scanner.line, 2);
    assert_eq!(scanner.advance(), 'd');
    assert_eq!(scanner.cursor, 5);
    assert_eq!(scanner.line, 2);
}
