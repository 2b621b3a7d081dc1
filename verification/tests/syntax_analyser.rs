use json_parser::syntax_analyser::{ErrorType, SyntaxAnalyzer};
use json_parser::types::{Token, TokenType};

#[test]
fn test_parse_should_return_err_if_tokens_empty() {
    //Arrange
    let input: Vec<Token> = vec![];
    let mut syntax_analyser = SyntaxAnalyzer::new();

    // Act
    let result = syntax_analyser.parse(input);

    //Assert
    assert_eq!(result, Err(ErrorType::EmptyTokens));
}

#[test]
fn test_parse_should_return_err_if_first_token_is_not_valid() {
    //Arrange
    let input: Vec<Token> = vec![
        Token { token_type: TokenType::Boolean, lexeme: "true".to_string(), line: 1, position_start: 0, position_end: 0 }
    ];
    let mut syntax_analyser = SyntaxAnalyzer::new();

    // Act
    let result = syntax_analyser.parse(input);

    //Assert
    assert_eq!(result, Err(ErrorType::InvalidInitialState));
}

#[test]
fn test_parse_should_return_true_for_empty_object() {
    //Arrange
    let input: Vec<Token> = vec![
        Token { token_type: TokenType::LeftBrace, lexeme: "{".to_string(), line: 0, position_start: 0, position_end: 1 },
        Token { token_type: TokenType::RightBrace, lexeme: "}".to_string(), line: 0, position_start: 1, position_end: 2 },
    ];
    let mut syntax_analyser = SyntaxAnalyzer::new();

    // Act
    let result = syntax_analyser.parse(input);

    //Assert
    assert!(result.is_ok());
}

#[test]
fn test_parse_should_return_true_for_object_with_single_value() {
    //Arrange
    let input: Vec<Token> = vec![
        Token { token_type: TokenType::LeftBrace, lexeme: "{".to_string(), line: 0, position_start: 0, position_end: 1 },
        Token { token_type: TokenType::String, lexeme: "test".to_string(), line: 0, position_start: 1, position_end: 7 },
        Token { token_type: TokenType::Colon, lexeme: ":".to_string(), line: 0, position_start: 7, position_end: 8 },
        Token { token_type: TokenType::String, lexeme: "value".to_string(), line: 0, position_start: 8, position_end: 15 },
        Token { token_type: TokenType::RightBrace, lexeme: "}".to_string(), line: 0, position_start: 15, position_end: 16 },
    ];
    let mut syntax_analyser = SyntaxAnalyzer::new();

    // Act
    let result = syntax_analyser.parse(input);

    //Assert
    assert!(result.is_ok());
}

#[test]
fn test_parse_should_return_true_for_object_with_multiple_values() {
    //Arrange
    let input: Vec<Token> = vec![
        Token { token_type: TokenType::LeftBrace, lexeme: "{".to_string(), line: 0, position_start: 0, position_end: 1 },
        Token { token_type: TokenType::String, lexeme: "\"test\"".to_string(), line: 0, position_start: 1, position_end: 7 },
        Token { token_type: TokenType::Colon, lexeme: ":".to_string(), line: 0, position_start: 7, position_end: 8 },
        Token { token_type: TokenType::String, lexeme: "\"value\"".to_string(), line: 0, position_start: 8, position_end: 15 },
        Token { token_type: TokenType::Comma, lexeme: ",".to_string(), line: 0, position_start: 15, position_end: 16 },
        Token { token_type: TokenType::String, lexeme: "\"test2\"".to_string(), line: 0, position_start: 16, position_end: 23 },
        Token { token_type: TokenType::Colon, lexeme: ":".to_string(), line: 0, position_start: 23, position_end: 24 },
        Token { token_type: TokenType::String, lexeme: "1".to_string(), line: 0, position_start: 25, position_end: 26 },
        Token { token_type: TokenType::RightBrace, lexeme: "}".to_string(), line: 0, position_start: 26, position_end: 27 },
    ];
    let mut syntax_analyser = SyntaxAnalyzer::new();

    // Act
    let result = syntax_analyser.parse(input.into());

    //Assert
    assert!(result.is_ok());
}

#[test]
fn test_parse_should_return_true_for_nested_object() {
    //Arrange
    let input: Vec<Token> = vec![
        Token { token_type: TokenType::LeftBrace, lexeme: "{".to_string(), line: 0, position_start: 0, position_end: 0 },
        Token { token_type: TokenType::String, lexeme: "the key".to_string(), line: 0, position_start: 0, position_end: 0 },
        Token { token_type: TokenType::Colon, lexeme: ":".to_string(), line: 0, position_start: 0, position_end: 0 },
        Token { token_type: TokenType::LeftBrace, lexeme: "{".to_string(), line: 0, position_start: 0, position_end: 0 },
        Token { token_type: TokenType::String, lexeme: "test".to_string(), line: 0, position_start: 0, position_end: 0 },
        Token { token_type: TokenType::Colon, lexeme: ":".to_string(), line: 0, position_start: 0, position_end: 0 },
        Token { token_type: TokenType::String, lexeme: "value".to_string(), line: 0, position_start: 0, position_end: 0 },
        Token { token_type: TokenType::Comma, lexeme: ",".to_string(), line: 0, position_start: 0, position_end: 0 },
        Token { token_type: TokenType::String, lexeme: "test2".to_string(), line: 0, position_start: 0, position_end: 0 },
        Token { token_type: TokenType::Colon, lexeme: ":".to_string(), line: 0, position_start: 0, position_end: 0 },
        Token { token_type: TokenType::String, lexeme: "value2".to_string(), line: 0, position_start: 0, position_end: 0 },
        Token { token_type: TokenType::RightBrace, lexeme: "}".to_string(), line: 0, position_start: 0, position_end: 0 },
        Token { token_type: TokenType::RightBrace, lexeme: "}".to_string(), line: 0, position_start: 0, position_end: 0 },
    ];
    let mut syntax_analyser = SyntaxAnalyzer::new();

    // Act
    let result = syntax_analyser.parse(input);

    //Assert
    assert!(result.is_ok());
}

#[test]
fn test_parse_should_return_error_for_unclosed_object() {
    //Arrange
    let input: Vec<Token> = vec![
        Token { token_type: TokenType::LeftBrace, lexeme: "{".to_string(), line: 0, position_start: 0, position_end: 1 },
        Token { token_type: TokenType::String, lexeme: "\"test\"".to_string(), line: 0, position_start: 1, position_end: 7 },
        Token { token_type: TokenType::Colon, lexeme: ":".to_string(), line: 0, position_start: 7, position_end: 8 },
        Token { token_type: TokenType::String, lexeme: "\"value\"".to_string(), line: 0, position_start: 8, position_end: 15 },
    ];
    let mut syntax_analyser = SyntaxAnalyzer::new();

    // Act
    let result = syntax_analyser.parse(input.into());

    //Assert
    assert_eq!(result, Err(ErrorType::UnexpectedToken));
}

#[test]
fn test_parse_should_return_true_for_empty_array() {
    //Arrange
    let input: Vec<Token> = vec![
        Token { token_type: TokenType::LeftBracket, lexeme: "[".to_string(), line: 0, position_start: 0, position_end: 1 },
        Token { token_type: TokenType::RightBracket, lexeme: "]".to_string(), line: 0, position_start: 1, position_end: 2 },
    ];
    let mut syntax_analyser = SyntaxAnalyzer::new();

    // Act
    let result = syntax_analyser.parse(input);

    //Assert
    assert!(result.is_ok());
}

#[test]
fn test_parse_should_return_true_for_array_with_single_value() {
    //Arrange
    let input: Vec<Token> = vec![
        Token { token_type: TokenType::LeftBracket, lexeme: "[".to_string(), line: 0, position_start: 0, position_end: 1 },
        Token { token_type: TokenType::String, lexeme: "test".to_string(), line: 0, position_start: 1, position_end: 7 },
        Token { token_type: TokenType::RightBracket, lexeme: "]".to_string(), line: 0, position_start: 7, position_end: 8 },
    ];
    let mut syntax_analyser = SyntaxAnalyzer::new();

    // Act
    let result = syntax_analyser.parse(input);

    //Assert
    assert!(result.is_ok());
}

#[test]
fn test_parse_should_return_true_for_nested_array() {
    //Arrange
    let input: Vec<Token> = vec![
        Token { token_type: TokenType::LeftBracket, lexeme: "[".to_string(), line: 0, position_start: 0, position_end: 0 },
        Token { token_type: TokenType::LeftBracket, lexeme: "[".to_string(), line: 0, position_start: 0, position_end: 0 },
        Token { token_type: TokenType::String, lexeme: "test".to_string(), line: 0, position_start: 0, position_end: 0 },
        Token { token_type: TokenType::RightBracket, lexeme: "]".to_string(), line: 0, position_start: 0, position_end: 0 },
        Token { token_type: TokenType::RightBracket, lexeme: "]".to_string(), line: 0, position_start: 0, position_end: 0 },
    ];
    let mut syntax_analyser = SyntaxAnalyzer::new();

    // Act
    let result = syntax_analyser.parse(input);

    //Assert
    assert!(result.is_ok());
}

#[test]
fn test_parse_should_return_true_for_array_with_object() {
    //Arrange
    let input: Vec<Token> = vec![
        Token { token_type: TokenType::LeftBracket, lexeme: "[".to_string(), line: 0, position_start: 0, position_end: 0 },
        Token { token_type: TokenType::LeftBrace, lexeme: "{".to_string(), line: 0, position_start: 0, position_end: 0 },
        Token { token_type: TokenType::RightBrace, lexeme: "}".to_string(), line: 0, position_start: 0, position_end: 0 },
        Token { token_type: TokenType::RightBracket, lexeme: "]".to_string(), line: 0, position_start: 0, position_end: 0 },
    ];
    let mut syntax_analyser = SyntaxAnalyzer::new();

    // Act
    let result = syntax_analyser.parse(input);

    //Assert
    assert!(result.is_ok());
}

#[test]
fn test_parse_should_return_true_for_mixed_array() {
    //Arrange
    let input: Vec<Token> = vec![
        Token { token_type: TokenType::LeftBracket, lexeme: "[".to_string(), line: 0, position_start: 0, position_end: 0 },
        Token { token_type: TokenType::String, lexeme: "test".to_string(), line: 0, position_start: 0, position_end: 0 },
        Token { token_type: TokenType::Comma, lexeme: ",".to_string(), line: 0, position_start: 0, position_end: 0 },
        Token { token_type: TokenType::LeftBracket, lexeme: "[".to_string(), line: 0, position_start: 0, position_end: 0 },
        Token { token_type: TokenType::RightBracket, lexeme: "]".to_string(), line: 0, position_start: 0, position_end: 0 },
        Token { token_type: TokenType::Comma, lexeme: ",".to_string(), line: 0, position_start: 0, position_end: 0 },
        Token { token_type: TokenType::LeftBrace, lexeme: "{".to_string(), line: 0, position_start: 0, position_end: 0 },
        Token { token_type: TokenType::String, lexeme: "test".to_string(), line: 0, position_start: 0, position_end: 0 },
        Token { token_type: TokenType::Colon, lexeme: ":".to_string(), line: 0, position_start: 0, position_end: 0 },
        Token { token_type: TokenType::Number, lexeme: "123".to_string(), line: 0, position_start: 0, position_end: 0 },
        Token { token_type: TokenType::RightBrace, lexeme: "}".to_string(), line: 0, position_start: 0, position_end: 0 },
        Token { token_type: TokenType::RightBracket, lexeme: "]".to_string(), line: 0, position_start: 0, position_end: 0 },
    ];
    let mut syntax_analyser = SyntaxAnalyzer::new();

    // Act
    let result = syntax_analyser.parse(input);

    //Assert
    assert!(result.is_ok());
}

#[test]
fn test_parse_should_return_true_2d_array() {
    //Arrange
    let input: Vec<Token> = vec![
        Token { token_type: TokenType::LeftBracket, lexeme: "[".to_string(), line: 0, position_start: 0, position_end: 0 },
        Token { token_type: TokenType::LeftBracket, lexeme: "[".to_string(), line: 0, position_start: 0, position_end: 0 },
        Token { token_type: TokenType::RightBracket, lexeme: "]".to_string(), line: 0, position_start: 0, position_end: 0 },
        Token { token_type: TokenType::Comma, lexeme: ",".to_string(), line: 0, position_start: 0, position_end: 0 },
        Token { token_type: TokenType::LeftBracket, lexeme: "[".to_string(), line: 0, position_start: 0, position_end: 0 },
        Token { token_type: TokenType::RightBracket, lexeme: "]".to_string(), line: 0, position_start: 0, position_end: 0 },
        Token { token_type: TokenType::RightBracket, lexeme: "]".to_string(), line: 0, position_start: 0, position_end: 0 },
    ];
    let mut syntax_analyser = SyntaxAnalyzer::new();

    // Act
    let result = syntax_analyser.parse(input);

    //Assert
    assert!(result.is_ok());
}

#[test]
fn test_parse_should_return_err_for_array_with_trailing_comma() {
    //Arrange
    let input: Vec<Token> = vec![
        Token { token_type: TokenType::LeftBracket, lexeme: "[".to_string(), line: 0, position_start: 0, position_end: 0 },
        Token { token_type: TokenType::String, lexeme: "test".to_string(), line: 0, position_start: 0, position_end: 0 },
        Token { token_type: TokenType::RightBracket, lexeme: "]".to_string(), line: 0, position_start: 0, position_end: 0 },
        Token { token_type: TokenType::Comma, lexeme: ",".to_string(), line: 0, position_start: 0, position_end: 0 },
    ];
    let mut syntax_analyser = SyntaxAnalyzer::new();

    // Act
    let result = syntax_analyser.parse(input);

    //Assert
    assert!(result.is_err());
}
