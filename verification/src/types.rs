//! Shared data model of the lexing pass: token kinds, positioned tokens,
//! lexical errors, and the spec-level character bookkeeping (line numbers and
//! line starts) that their location fields are measured against.

use vstd::prelude::*;

verus! {

/// The closed set of token kinds produced by the lexer.
#[derive(Copy, Clone, PartialEq, Eq, Structural, Debug)]
pub enum TokenType {
    LeftBrace,
    RightBrace,
    LeftBracket,
    RightBracket,
    Colon,
    Comma,
    String,
    Number,
    Boolean,
    Null,
}

impl TokenType {
    /// The value-bearing kinds, as opposed to structural punctuation.
    pub open spec fn spec_is_literal(&self) -> bool {
        match self {
            TokenType::String => true,
            TokenType::Number => true,
            TokenType::Boolean => true,
            TokenType::Null => true,
            _ => false,
        }
    }

    /// Whether this kind carries a value (string, number, boolean or null).
    #[verifier::when_used_as_spec(spec_is_literal)]
    pub fn is_literal(&self) -> (r: bool)
        ensures
            r == self.spec_is_literal(),
    {
        match self {
            TokenType::String => true,
            TokenType::Number => true,
            TokenType::Boolean => true,
            TokenType::Null => true,
            _ => false,
        }
    }
}

/// A classified, positioned unit of lexical input. `lexeme` is the exact
/// source substring spanned by the token; `position_start`/`position_end`
/// are character offsets into the source; `line` is 1-based.
#[derive(Debug)]
pub struct Token {
    pub token_type: TokenType,
    pub lexeme: String,
    pub line: usize,
    pub position_start: usize,
    pub position_end: usize,
}

/// Two tokens that agree on every field (lexemes compared as character
/// sequences).
pub open spec fn token_eqv(a: Token, b: Token) -> bool {
    &&& a.token_type == b.token_type
    &&& a.lexeme@ == b.lexeme@
    &&& a.line == b.line
    &&& a.position_start == b.position_start
    &&& a.position_end == b.position_end
}

impl Clone for Token {
    /// A copy that agrees with the original on every field.
    fn clone(&self) -> (res: Self)
        ensures
            token_eqv(res, *self),
    {
        Token {
            token_type: self.token_type,
            lexeme: self.lexeme.clone(),
            line: self.line,
            position_start: self.position_start,
            position_end: self.position_end,
        }
    }
}

/// A lexical error. One `ScanError` terminates lexing. `line_start` is the
/// offset of the current line's first character, kept so that callers can
/// derive a column as `position - line_start`.
#[derive(Clone, Debug)]
pub struct ScanError {
    pub line: usize,
    pub line_start: usize,
    pub lexeme: String,
    pub position_start: usize,
    pub position_end: usize,
    pub message: String,
}

/// The whitespace characters that separate tokens.
pub open spec fn is_ws_char(c: char) -> bool {
    c == ' ' || c == '\r' || c == '\t' || c == '\n'
}

/// A decimal digit.
pub open spec fn is_digit_char(c: char) -> bool {
    '0' <= c && c <= '9'
}

/// A hexadecimal digit, either case.
pub open spec fn is_hex_char(c: char) -> bool {
    is_digit_char(c) || ('a' <= c && c <= 'f') || ('A' <= c && c <= 'F')
}

/// How many newline characters occur strictly before offset `i`.
pub open spec fn newline_count(s: Seq<char>, i: int) -> nat
    decreases i,
{
    if i <= 0 {
        0
    } else {
        newline_count(s, i - 1) + if s[i - 1] == '\n' { 1nat } else { 0nat }
    }
}

/// The 1-based line number of offset `i`: one more than the newlines before it.
pub open spec fn line_at(s: Seq<char>, i: int) -> nat {
    1 + newline_count(s, i)
}

/// The offset of the first character of the line that offset `i` lies on.
pub open spec fn line_start_at(s: Seq<char>, i: int) -> int
    decreases i,
{
    if i <= 0 {
        0
    } else if s[i - 1] == '\n' {
        i
    } else {
        line_start_at(s, i - 1)
    }
}

/// There can be no more newlines before offset `i` than characters.
pub proof fn lemma_newline_count_le(s: Seq<char>, i: int)
    requires
        0 <= i,
    ensures
        newline_count(s, i) <= i,
    decreases i,
{
    if i > 0 {
        lemma_newline_count_le(s, i - 1);
    }
}


} // verus!
