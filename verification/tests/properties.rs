use json_parser::lexer::Lexer;
use json_parser::syntax_analyser::{ErrorType, SyntaxAnalyzer};
use json_parser::types::{Token, TokenType};

fn lex(source: &str) -> Vec<Token> {
    Lexer::new().get_tokens(source).unwrap()
}

fn parse_source(source: &str) -> Result<(), ErrorType> {
    SyntaxAnalyzer::new().parse(lex(source))
}

#[test]
fn empty_input_lexes_to_empty_sequence() {
    let tokens = lex("");
    assert_eq!(tokens.len(), 0);
}

#[test]
fn whitespace_only_input_lexes_to_empty_sequence() {
    let tokens = lex(" \t\r\n ");
    assert_eq!(tokens.len(), 0);
}

#[test]
fn parse_of_empty_sequence_is_empty_tokens_error() {
    let mut analyser = SyntaxAnalyzer::new();
    assert_eq!(analyser.parse(Vec::new()), Err(ErrorType::EmptyTokens));
}

#[test]
fn small_array_tokenizes_to_seven_tokens_and_parses() {
    let source = "[1,2,3]";
    let tokens = lex(source);
    assert_eq!(tokens.len(), 7);
    let expected = [
        (TokenType::LeftBracket, "[", 0, 1),
        (TokenType::Number, "1", 1, 2),
        (TokenType::Comma, ",", 2, 3),
        (TokenType::Number, "2", 3, 4),
        (TokenType::Comma, ",", 4, 5),
        (TokenType::Number, "3", 5, 6),
        (TokenType::RightBracket, "]", 6, 7),
    ];
    for (token, (tt, lexeme, start, end)) in tokens.iter().zip(expected.iter()) {
        assert_eq!(token.token_type, *tt);
        assert_eq!(token.lexeme, *lexeme);
        assert_eq!(token.position_start, *start);
        assert_eq!(token.position_end, *end);
    }
    assert!(SyntaxAnalyzer::new().parse(tokens).is_ok());
}

#[test]
fn every_token_lexeme_is_the_spanned_source_text() {
    let source = " { \"key\" : [ 1.5e+3 , true , null ] } ";
    let tokens = lex(source);
    assert!(tokens.len() > 0);
    for token in &tokens {
        assert_eq!(&source[token.position_start..token.position_end], token.lexeme);
    }
    // Consecutive tokens do not overlap and offsets are monotonic.
    for pair in tokens.windows(2) {
        assert!(pair[0].position_end <= pair[1].position_start);
    }
}

#[test]
fn small_object_tokenizes_to_nine_tokens_and_parses() {
    let source = "{\"a\":1,\"b\":2}";
    let tokens = lex(source);
    assert_eq!(tokens.len(), 9);
    assert!(SyntaxAnalyzer::new().parse(tokens).is_ok());
}

#[test]
fn object_with_missing_value_fails_with_unexpected_token() {
    assert_eq!(parse_source("{\"a\":}"), Err(ErrorType::UnexpectedToken));
}

#[test]
fn array_with_trailing_comma_fails_parsing() {
    assert!(parse_source("[1,]").is_err());
}

#[test]
fn tokens_after_the_document_fail_with_trailing_tokens() {
    assert_eq!(parse_source("[] 1"), Err(ErrorType::TrailingTokens));
    assert_eq!(parse_source("[],"), Err(ErrorType::TrailingTokens));
}

#[test]
fn parse_accepts_when_the_final_token_closes_pending_constructs() {
    // The pop-and-advance protocol cannot move past the final token, so a
    // sequence ending exactly at a nested construct's closer is accepted as
    // if that closer also closed the pending outer constructs.
    assert!(parse_source("[[]").is_ok());
    assert!(parse_source("{\"a\":{}").is_ok());
    // With anything other than the matching closer at the end, the pending
    // construct is still rejected.
    assert!(parse_source("[{}").is_err());
    assert!(parse_source("[1").is_err());
}

#[test]
fn unterminated_string_fails_lexing() {
    let result = Lexer::new().get_tokens("\"unterminated");
    let error = result.unwrap_err();
    assert_eq!(error.message, "Unterminated string");
    assert_eq!(error.position_start, 0);
    assert_eq!(error.position_end, 13);
}

#[test]
fn leading_zero_fails_lexing() {
    let result = Lexer::new().get_tokens("0123");
    let error = result.unwrap_err();
    assert_eq!(error.message, "Invalid number - no leading zeros");
}

#[test]
fn zero_alone_lexes_as_a_number() {
    let tokens = lex("0");
    assert_eq!(tokens.len(), 1);
    assert_eq!(tokens[0].token_type, TokenType::Number);
    assert_eq!(tokens[0].lexeme, "0");
}

#[test]
fn zero_point_five_lexes_as_a_number() {
    let tokens = lex("0.5");
    assert_eq!(tokens.len(), 1);
    assert_eq!(tokens[0].token_type, TokenType::Number);
    assert_eq!(tokens[0].lexeme, "0.5");
}

#[test]
fn exponent_without_digit_fails_lexing() {
    let result = Lexer::new().get_tokens("1e");
    let error = result.unwrap_err();
    assert_eq!(error.message, "Expected digit after exponent");
}

#[test]
fn exponent_forms_lex_as_single_numbers() {
    for source in ["1e10", "1E-10", "1.5e+3"] {
        let tokens = lex(source);
        assert_eq!(tokens.len(), 1);
        assert_eq!(tokens[0].token_type, TokenType::Number);
        assert_eq!(tokens[0].lexeme, *source);
    }
}

#[test]
fn minus_without_a_digit_fails_lexing() {
    // The integer part needs at least one digit: a minus followed by anything
    // else is rejected, with the offending span being the minus itself.
    for source in ["-", "-.5", "-e1", "[-]"] {
        let result = Lexer::new().get_tokens(source);
        let error = result.unwrap_err();
        assert_eq!(error.message, "Invalid number - expected digit");
        assert_eq!(error.lexeme, "-");
    }
}

#[test]
fn negative_numbers_lex_as_single_numbers() {
    for source in ["-12", "-0", "-0.5", "-1e10"] {
        let tokens = lex(source);
        assert_eq!(tokens.len(), 1);
        assert_eq!(tokens[0].token_type, TokenType::Number);
        assert_eq!(tokens[0].lexeme, *source);
    }
}

#[test]
fn fraction_with_no_digit_after_the_dot_is_accepted() {
    // A known permissive spot: the fractional part accepts zero digits after
    // the dot, so `1.` lexes successfully as one Number token.
    let tokens = lex("1.");
    assert_eq!(tokens.len(), 1);
    assert_eq!(tokens[0].token_type, TokenType::Number);
    assert_eq!(tokens[0].lexeme, "1.");
}

#[test]
fn deeply_nested_array_parses() {
    let mut source = String::new();
    for _ in 0..1000 {
        source.push('[');
    }
    for _ in 0..1000 {
        source.push(']');
    }
    assert!(parse_source(&source).is_ok());
}

#[test]
fn escaped_quote_lexes_as_one_string_token() {
    let source = "\"\\\"\"";
    let tokens = lex(source);
    assert_eq!(tokens.len(), 1);
    assert_eq!(tokens[0].token_type, TokenType::String);
    assert_eq!(tokens[0].lexeme, "\"\\\"\"");
}

#[test]
fn unicode_escape_lexes_and_bad_hex_fails() {
    let tokens = lex("\"\\u00fF\"");
    assert_eq!(tokens.len(), 1);
    assert_eq!(tokens[0].token_type, TokenType::String);

    let result = Lexer::new().get_tokens("\"\\u00g0\"");
    assert_eq!(result.unwrap_err().message, "Invalid escape character");
}

#[test]
fn invalid_escape_fails_lexing() {
    let result = Lexer::new().get_tokens("\"a\\x\"");
    assert_eq!(result.unwrap_err().message, "Invalid escape character");
}

#[test]
fn raw_newline_and_tab_in_strings_fail_lexing() {
    let newline = Lexer::new().get_tokens("\"a\nb\"");
    assert_eq!(newline.unwrap_err().message, "Unescaped newline in string");
    let tab = Lexer::new().get_tokens("\"a\tb\"");
    assert_eq!(tab.unwrap_err().message, "Unescaped tab in string");
}

#[test]
fn keyword_mismatch_reports_the_expected_character_and_index() {
    let result = Lexer::new().get_tokens("tru!");
    assert_eq!(result.unwrap_err().message, "Expected 'e' at index 3 of keyword");
    let result = Lexer::new().get_tokens("falze");
    assert_eq!(result.unwrap_err().message, "Expected 's' at index 3 of keyword");
    let result = Lexer::new().get_tokens("nul");
    assert_eq!(result.unwrap_err().message, "Expected 'l' at index 3 of keyword");
}

#[test]
fn unexpected_character_fails_lexing() {
    let result = Lexer::new().get_tokens("@");
    let error = result.unwrap_err();
    assert_eq!(error.message, "Unexpected character");
    assert_eq!(error.lexeme, "@");
}

#[test]
fn error_location_tracks_lines_and_columns() {
    let result = Lexer::new().get_tokens("[\n  @\n]");
    let error = result.unwrap_err();
    assert_eq!(error.line, 2);
    assert_eq!(error.line_start, 2);
    assert_eq!(error.position_start, 4);
    assert_eq!(error.position_end, 5);
}

#[test]
fn tokens_carry_the_line_they_end_on() {
    let tokens = lex("[\n1\n]");
    assert_eq!(tokens.len(), 3);
    assert_eq!(tokens[0].line, 1);
    assert_eq!(tokens[1].line, 2);
    assert_eq!(tokens[2].line, 3);
}

#[test]
fn literal_kinds_are_the_value_bearing_ones() {
    assert!(TokenType::String.is_literal());
    assert!(TokenType::Number.is_literal());
    assert!(TokenType::Boolean.is_literal());
    assert!(TokenType::Null.is_literal());
    assert!(!TokenType::LeftBrace.is_literal());
    assert!(!TokenType::RightBrace.is_literal());
    assert!(!TokenType::LeftBracket.is_literal());
    assert!(!TokenType::RightBracket.is_literal());
    assert!(!TokenType::Colon.is_literal());
    assert!(!TokenType::Comma.is_literal());
}

#[test]
fn booleans_and_null_lex_to_their_kinds() {
    let tokens = lex("[true,false,null]");
    assert_eq!(tokens.len(), 7);
    assert_eq!(tokens[1].token_type, TokenType::Boolean);
    assert_eq!(tokens[1].lexeme, "true");
    assert_eq!(tokens[3].token_type, TokenType::Boolean);
    assert_eq!(tokens[3].lexeme, "false");
    assert_eq!(tokens[5].token_type, TokenType::Null);
    assert_eq!(tokens[5].lexeme, "null");
    assert!(SyntaxAnalyzer::new().parse(tokens).is_ok());
}

#[test]
fn a_literal_cannot_open_a_document() {
    assert_eq!(parse_source("1"), Err(ErrorType::InvalidInitialState));
    assert_eq!(parse_source("\"a\""), Err(ErrorType::InvalidInitialState));
}

#[test]
fn leading_comma_in_array_fails_parsing() {
    assert_eq!(parse_source("[,1]"), Err(ErrorType::UnexpectedToken));
}

#[test]
fn analyzer_can_be_reused_across_parses() {
    let mut analyser = SyntaxAnalyzer::new();
    assert!(analyser.parse(lex("{\"a\":1")).is_err());
    // The stack is fresh on every call, so an earlier failure leaves nothing
    // behind.
    assert!(analyser.parse(lex("[1,2]")).is_ok());
}
