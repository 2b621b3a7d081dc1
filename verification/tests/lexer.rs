use json_parser::lexer::Lexer;
use json_parser::source_scanner::SourceScanner;
use json_parser::types::TokenType;

#[test]
fn get_tokens_quote() {
    // Arrange
    let source = "[\"\\\"\"]";
    let lexer = Lexer::new();

    // Act
    let result = lexer.get_tokens(source);

    // Assert
    assert!(!result.is_err());
    let tokens = result.unwrap();
    assert!(tokens.len() == 3);
    assert!(tokens[0].token_type == TokenType::LeftBracket);
    assert!(tokens[1].token_type == TokenType::String);
    assert!(tokens[2].token_type == TokenType::RightBracket);
}

#[test]
fn lexer_get_tokens_quote() {
    // Arrange
    let source = "[\"\\\"\"]";
    let lexer = Lexer::new();

    // Act
    let result = lexer.get_tokens(source);

    // Assert
    assert!(!result.is_err());
    let tokens = result.unwrap();
    assert!(tokens.len() == 3);
    assert!(tokens[0].token_type == TokenType::LeftBracket);
    assert!(tokens[1].token_type == TokenType::String);
    assert!(tokens[2].token_type == TokenType::RightBracket);
}

#[test]
fn test_get_next_token_brace() {
    // Arrange
    let mut scanner = SourceScanner::new("{");
    let lexer = Lexer::new();

    // Act
    let result = lexer.get_next_token(&mut scanner);

    // Assert
    assert!(result == Ok(TokenType::LeftBrace));
}

#[test]
fn lexer_test_get_next_token_brace() {
    // Arrange
    let mut scanner = SourceScanner::new("{");
    let lexer = Lexer::new();

    // Act
    let result = lexer.get_next_token(&mut scanner);

    // Assert
    assert!(result == Ok(TokenType::LeftBrace));
}

#[test]
fn test_get_next_token_boolean() {
    // Arrange
    let mut scanner = SourceScanner::new("true");
    let lexer = Lexer::new();

    // Act
    let result = lexer.get_next_token(&mut scanner);

    // Assert
    assert!(result == Ok(TokenType::Boolean));
}

#[test]
fn lexer_test_get_next_token_boolean() {
    // Arrange
    let mut scanner = SourceScanner::new("true");
    let lexer = Lexer::new();

    // Act
    let result = lexer.get_next_token(&mut scanner);

    // Assert
    assert!(result == Ok(TokenType::Boolean));
}

#[test]
fn test_get_next_token_null() {
    // Arrange
    let mut scanner = SourceScanner::new("null");
    let lexer = Lexer::new();

    // Act
    let result = lexer.get_next_token(&mut scanner);

    // Assert
    assert!(result == Ok(TokenType::Null));
}

#[test]
fn lexer_test_get_next_token_null() {
    // Arrange
    let mut scanner = SourceScanner::new("null");
    let lexer = Lexer::new();

    // Act
    let result = lexer.get_next_token(&mut scanner);

    // Assert
    assert!(result == Ok(TokenType::Null));
}

#[test]
fn test_match_keyword() {
    // Arrange
    let mut scanner = SourceScanner::new("true");
    let lexer = Lexer::new();

    // Act
    let result = lexer.get_next_token(&mut scanner);

    // Assert
    assert!(result == Ok(TokenType::Boolean));
}

#[test]
fn lexer_test_match_keyword() {
    // Arrange
    let mut scanner = SourceScanner::new("true");
    let lexer = Lexer::new();

    // Act
    let result = lexer.get_next_token(&mut scanner);

    // Assert
    assert!(result == Ok(TokenType::Boolean));
}

#[test]
fn test_match_string() {
    // Arrange
    let mut scanner = SourceScanner::new("\"test string\"");
    let lexer = Lexer::new();

    // Act
    let result = lexer.get_next_token(&mut scanner);

    // Assert
    assert!(result == Ok(TokenType::String));
}

#[test]
fn lexer_test_match_string() {
    // Arrange
    let mut scanner = SourceScanner::new("\"test string\"");
    let lexer = Lexer::new();

    // Act
    let result = lexer.get_next_token(&mut scanner);

    // Assert
    assert!(result == Ok(TokenType::String));
}

#[test]
fn test_match_string_with_quote() {
    // Arrange
    let mut scanner = SourceScanner::new("\"\\\"\"");
    let lexer = Lexer::new();

    // Act
    let result = lexer.get_next_token(&mut scanner);

    // Assert
    assert!(result == Ok(TokenType::String));
}

#[test]
fn lexer_test_match_string_with_quote() {
    // Arrange
    let mut scanner = SourceScanner::new("\"\\\"\"");
    let lexer = Lexer::new();

    // Act
    let result = lexer.get_next_token(&mut scanner);

    // Assert
    assert!(result == Ok(TokenType::String));
}

#[test]
fn test_match_string_fail() {
    // Arrange
    let mut scanner = SourceScanner::new("\"test string");
    let lexer = Lexer::new();

    // Act
    let result = lexer.get_next_token(&mut scanner);

    // Assert
    assert!(result.is_err());
}

#[test]
fn lexer_test_match_string_fail() {
    // Arrange
    let mut scanner = SourceScanner::new("\"test string");
    let lexer = Lexer::new();

    // Act
    let result = lexer.get_next_token(&mut scanner);

    // Assert
    assert!(result.is_err());
}

#[test]
fn test_match_number() {
    // Arrange
    let mut scanner = SourceScanner::new("123");
    let lexer = Lexer::new();

    // Act
    let result = lexer.get_next_token(&mut scanner);

    // Assert
    assert!(result == Ok(TokenType::Number));
}

#[test]
fn lexer_test_match_number() {
    // Arrange
    let mut scanner = SourceScanner::new("123");
    let lexer = Lexer::new();

    // Act
    let result = lexer.get_next_token(&mut scanner);

    // Assert
    assert!(result == Ok(TokenType::Number));
}

#[test]
fn test_err_unquoted_str() {
    // Arrange
    let mut scanner = SourceScanner::new("unquoted string");
    let lexer = Lexer::new();

    // Act
    let result = lexer.get_next_token(&mut scanner);

    // Assert
    assert!(result.is_err());
}

#[test]
fn test_err_number_no_digit_after_exponent() {
    // Arrange
    let mut scanner = SourceScanner::new("0e");
    let lexer = Lexer::new();

    // Act
    let result = lexer.get_next_token(&mut scanner);

    // Assert
    assert!(result.is_err());
}

#[test]
fn test_err_number_no_leading_zeros() {
    // Arrange
    let mut scanner = SourceScanner::new("0123");
    let lexer = Lexer::new();

    // Act
    let result = lexer.get_next_token(&mut scanner);

    // Assert
    assert!(result.is_err());
}
