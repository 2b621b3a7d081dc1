//! The tokenizer. A stateless `Lexer` drives a `SourceScanner` and produces
//! the token sequence of a text, or the first lexical error.
//!
//! The whole pass has a functional specification: `spec_tokens_from` says, for
//! any text and start offset, exactly which tokens come out, or at which
//! offset and with which message lexing fails. `get_tokens` is proved to
//! return precisely that.

use vstd::prelude::*;
use vstd::string::StrSliceExecFns;

use crate::source_scanner::{lemma_ws_end, ws_end, SourceScanner};
use crate::types::{
    is_digit_char, is_hex_char, line_at, line_start_at, ScanError, Token, TokenType,
};

verus! {

/// The character at offset `i`, or the NUL sentinel at or past the end.
pub open spec fn peek_at(s: Seq<char>, i: int) -> char {
    if 0 <= i < s.len() {
        s[i]
    } else {
        '\0'
    }
}

/// Where a digit run that starts at offset `i` ends.
pub open spec fn digits_end(s: Seq<char>, i: int) -> int
    decreases s.len() - i,
{
    if 0 <= i < s.len() && is_digit_char(s[i]) {
        digits_end(s, i + 1)
    } else {
        i
    }
}

/// `digits_end` stays inside the text and lands on a non-digit.
pub proof fn lemma_digits_end(s: Seq<char>, i: int)
    requires
        0 <= i <= s.len(),
    ensures
        i <= digits_end(s, i) <= s.len(),
        !is_digit_char(peek_at(s, digits_end(s, i))),
    decreases s.len() - i,
{
    if 0 <= i < s.len() && is_digit_char(s[i]) {
        lemma_digits_end(s, i + 1);
    }
}

/// How many consecutive hexadecimal digits stand at offset `i`, capped at `n`.
pub open spec fn hex_prefix_len(s: Seq<char>, i: int, n: int) -> int
    decreases n,
{
    if n <= 0 || !is_hex_char(peek_at(s, i)) {
        0
    } else {
        1 + hex_prefix_len(s, i + 1, n - 1)
    }
}

pub proof fn lemma_hex_prefix_len(s: Seq<char>, i: int, n: int)
    requires
        0 <= n,
    ensures
        0 <= hex_prefix_len(s, i, n) <= n,
        hex_prefix_len(s, i, n) > 0 ==> 0 <= i < s.len(),
    decreases n,
{
    if n > 0 && is_hex_char(peek_at(s, i)) {
        lemma_hex_prefix_len(s, i + 1, n - 1);
    }
}

/// One step of the tokenizer: either a token of kind `token` whose last
/// consumed character is at `end - 1`, or a failure whose consumed span ends
/// at `end`, with the message that is reported.
pub ghost struct LexStep {
    pub token: Option<TokenType>,
    pub end: int,
    pub msg: Seq<char>,
}

/// A successful step.
pub open spec fn lex_ok(tt: TokenType, end: int) -> LexStep {
    LexStep { token: Some(tt), end, msg: Seq::empty() }
}

/// A failing step.
pub open spec fn lex_err(end: int, msg: Seq<char>) -> LexStep {
    LexStep { token: None, end, msg }
}

/// The first index at or after `k` where the text at offset `i` stops
/// matching the keyword, or the keyword's length if all of it matches.
pub open spec fn kw_scan(s: Seq<char>, i: int, kw: Seq<char>, k: int) -> int
    decreases kw.len() - k,
{
    if 0 <= k < kw.len() && peek_at(s, i + k) == kw[k] {
        kw_scan(s, i, kw, k + 1)
    } else {
        k
    }
}

pub proof fn lemma_kw_scan(s: Seq<char>, i: int, kw: Seq<char>, k: int)
    requires
        0 <= k <= kw.len(),
    ensures
        k <= kw_scan(s, i, kw, k) <= kw.len(),
        forall|m: int|
            k <= m < kw_scan(s, i, kw, k) ==> peek_at(s, i + m) == kw[m],
        kw_scan(s, i, kw, k) < kw.len() ==> peek_at(s, i + kw_scan(s, i, kw, k)) != kw[
            kw_scan(s, i, kw, k)
        ],
    decreases kw.len() - k,
{
    if 0 <= k < kw.len() && peek_at(s, i + k) == kw[k] {
        lemma_kw_scan(s, i, kw, k + 1);
    }
}

/// The message reported when keyword matching fails at index `k`: the
/// expected character and the index, spelled out per keyword.
pub open spec fn keyword_mismatch_msg(kw: Seq<char>, k: int) -> Seq<char> {
    if kw == "true"@ && k == 0 {
        "Expected 't' at index 0 of keyword"@
    } else if kw == "true"@ && k == 1 {
        "Expected 'r' at index 1 of keyword"@
    } else if kw == "true"@ && k == 2 {
        "Expected 'u' at index 2 of keyword"@
    } else if kw == "true"@ && k == 3 {
        "Expected 'e' at index 3 of keyword"@
    } else if kw == "false"@ && k == 0 {
        "Expected 'f' at index 0 of keyword"@
    } else if kw == "false"@ && k == 1 {
        "Expected 'a' at index 1 of keyword"@
    } else if kw == "false"@ && k == 2 {
        "Expected 'l' at index 2 of keyword"@
    } else if kw == "false"@ && k == 3 {
        "Expected 's' at index 3 of keyword"@
    } else if kw == "false"@ && k == 4 {
        "Expected 'e' at index 4 of keyword"@
    } else if kw == "null"@ && k == 0 {
        "Expected 'n' at index 0 of keyword"@
    } else if kw == "null"@ && k == 1 {
        "Expected 'u' at index 1 of keyword"@
    } else if kw == "null"@ && k == 2 {
        "Expected 'l' at index 2 of keyword"@
    } else if kw == "null"@ && k == 3 {
        "Expected 'l' at index 3 of keyword"@
    } else {
        Seq::empty()
    }
}

/// Matching a keyword at offset `i`: success consumes the whole keyword; a
/// mismatch consumes up to and including the offending character (nothing
/// more is consumed when the text ends first).
pub open spec fn kw_step(s: Seq<char>, i: int, kw: Seq<char>, tt: TokenType) -> LexStep {
    let k = kw_scan(s, i, kw, 0);
    if k == kw.len() {
        lex_ok(tt, i + k)
    } else if i + k < s.len() {
        lex_err(i + k + 1, keyword_mismatch_msg(kw, k))
    } else {
        lex_err(i + k, keyword_mismatch_msg(kw, k))
    }
}

/// Scanning a string body from offset `i` (just past the opening quote):
/// stops at the first unescaped quote; a raw newline or tab, an invalid
/// escape, or the end of the text fails the scan.
pub open spec fn string_scan(s: Seq<char>, i: int) -> LexStep
    decreases s.len() - i
        via string_scan_decreases
{
    if i >= s.len() {
        lex_err(i, "Unterminated string"@)
    } else if s[i] == '\n' {
        lex_err(i, "Unescaped newline in string"@)
    } else if s[i] == '\t' {
        lex_err(i, "Unescaped tab in string"@)
    } else if s[i] == '"' {
        lex_ok(TokenType::String, i + 1)
    } else if s[i] == '\\' {
        let c = peek_at(s, i + 1);
        if c == '\\' || c == '/' || c == '"' || c == 'b' || c == 'f' || c == 'n' || c == 'r'
            || c == 't' {
            string_scan(s, i + 2)
        } else if c == 'u' {
            let h = hex_prefix_len(s, i + 2, 4);
            if h == 4 {
                string_scan(s, i + 6)
            } else {
                lex_err(i + 2 + h, "Invalid escape character"@)
            }
        } else {
            lex_err(i + 1, "Invalid escape character"@)
        }
    } else {
        string_scan(s, i + 1)
    }
}

#[via_fn]
proof fn string_scan_decreases(s: Seq<char>, i: int) {
    if i < s.len() && s[i] == '\\' && peek_at(s, i + 1) == 'u' && hex_prefix_len(s, i + 2, 4)
        == 4 {
        lemma_hex_prefix_4_in_range(s, i + 2);
    }
}

/// A string scan never leaves the text, and a successful one consumes at
/// least the closing quote.
pub proof fn lemma_string_scan(s: Seq<char>, i: int)
    requires
        0 <= i <= s.len(),
    ensures
        i <= string_scan(s, i).end <= s.len(),
        string_scan(s, i).token is Some ==> i < string_scan(s, i).end,
    decreases s.len() - i,
{
    if i >= s.len() {
    } else if s[i] == '\n' || s[i] == '\t' || s[i] == '"' {
    } else if s[i] == '\\' {
        let c = peek_at(s, i + 1);
        if c == '\\' || c == '/' || c == '"' || c == 'b' || c == 'f' || c == 'n' || c == 'r'
            || c == 't' {
            assert(i + 1 < s.len());
            lemma_string_scan(s, i + 2);
        } else if c == 'u' {
            lemma_hex_prefix_len(s, i + 2, 4);
            let h = hex_prefix_len(s, i + 2, 4);
            if h == 4 {
                lemma_hex_prefix_4_in_range(s, i + 2);
                lemma_string_scan(s, i + 6);
            } else {
                lemma_hex_prefix_in_range(s, i + 2, 4);
            }
        }
    } else {
        lemma_string_scan(s, i + 1);
    }
}

/// A full run of four hexadecimal digits lies inside the text.
proof fn lemma_hex_prefix_4_in_range(s: Seq<char>, i: int)
    requires
        hex_prefix_len(s, i, 4) == 4,
    ensures
        i + 4 <= s.len(),
        0 <= i,
{
    assert(is_hex_char(peek_at(s, i)));
    assert(hex_prefix_len(s, i + 1, 3) == 3);
    assert(is_hex_char(peek_at(s, i + 1)));
    assert(hex_prefix_len(s, i + 2, 2) == 2);
    assert(is_hex_char(peek_at(s, i + 2)));
    assert(hex_prefix_len(s, i + 3, 1) == 1);
    assert(is_hex_char(peek_at(s, i + 3)));
}

/// A partial hexadecimal run ends inside the text (or at its very start).
proof fn lemma_hex_prefix_in_range(s: Seq<char>, i: int, n: int)
    requires
        0 <= n,
        0 <= i,
    ensures
        i + hex_prefix_len(s, i, n) <= s.len() || hex_prefix_len(s, i, n) == 0,
    decreases n,
{
    if n > 0 && is_hex_char(peek_at(s, i)) {
        lemma_hex_prefix_in_range(s, i + 1, n - 1);
    }
}

/// Scanning a number at offset `i`: an optional minus, then an integer part
/// of one or more digits that may not pair a leading zero with a further
/// digit, an optional fraction, and an optional exponent that must carry at
/// least one digit. A minus followed by anything but a digit fails.
pub open spec fn number_scan(s: Seq<char>, i: int) -> LexStep {
    let p = if peek_at(s, i) == '-' {
        i + 1
    } else {
        i
    };
    if peek_at(s, p) == '0' {
        if is_digit_char(peek_at(s, p + 1)) {
            lex_err(p + 1, "Invalid number - no leading zeros"@)
        } else {
            number_frac(s, p + 1)
        }
    } else if is_digit_char(peek_at(s, p)) {
        number_frac(s, digits_end(s, p))
    } else {
        lex_err(p, "Invalid number - expected digit"@)
    }
}

/// The fraction phase of a number scan: a dot followed by any run of digits,
/// possibly empty.
pub open spec fn number_frac(s: Seq<char>, i: int) -> LexStep {
    if peek_at(s, i) == '.' {
        number_exp(s, digits_end(s, i + 1))
    } else {
        number_exp(s, i)
    }
}

/// The exponent phase of a number scan: an exponent marker, an optional sign,
/// then at least one digit.
pub open spec fn number_exp(s: Seq<char>, i: int) -> LexStep {
    if peek_at(s, i) == 'e' || peek_at(s, i) == 'E' {
        let p = if peek_at(s, i + 1) == '+' || peek_at(s, i + 1) == '-' {
            i + 2
        } else {
            i + 1
        };
        if !is_digit_char(peek_at(s, p)) {
            lex_err(p, "Expected digit after exponent"@)
        } else {
            lex_ok(TokenType::Number, digits_end(s, p))
        }
    } else {
        lex_ok(TokenType::Number, i)
    }
}

/// Classifying the token that starts at offset `i` of the text, which must
/// hold a character there. Single punctuation maps to its kind; `t`, `f`, `n`
/// open keywords; a quote opens a string; a digit or minus opens a number;
/// anything else is consumed and reported as unexpected.
#[verifier::opaque]
pub open spec fn next_token_step(s: Seq<char>, i: int) -> LexStep {
    let c = peek_at(s, i);
    if c == '{' {
        lex_ok(TokenType::LeftBrace, i + 1)
    } else if c == '}' {
        lex_ok(TokenType::RightBrace, i + 1)
    } else if c == '[' {
        lex_ok(TokenType::LeftBracket, i + 1)
    } else if c == ']' {
        lex_ok(TokenType::RightBracket, i + 1)
    } else if c == ':' {
        lex_ok(TokenType::Colon, i + 1)
    } else if c == ',' {
        lex_ok(TokenType::Comma, i + 1)
    } else if c == 't' {
        kw_step(s, i, "true"@, TokenType::Boolean)
    } else if c == 'f' {
        kw_step(s, i, "false"@, TokenType::Boolean)
    } else if c == 'n' {
        kw_step(s, i, "null"@, TokenType::Null)
    } else if c == '"' {
        string_scan(s, i + 1)
    } else if is_digit_char(c) || c == '-' {
        number_scan(s, i)
    } else {
        lex_err(i + 1, "Unexpected character"@)
    }
}

/// A token step starting inside the text stays inside it, and a successful
/// step consumes at least one character.
pub proof fn lemma_next_token_step(s: Seq<char>, i: int)
    requires
        0 <= i < s.len(),
    ensures
        i <= next_token_step(s, i).end <= s.len(),
        next_token_step(s, i).token is Some ==> i < next_token_step(s, i).end,
{
    reveal(next_token_step);
    let c = peek_at(s, i);
    if c == 't' || c == 'f' || c == 'n' {
        let kw: Seq<char> = if c == 't' {
            "true"@
        } else if c == 'f' {
            "false"@
        } else {
            "null"@
        };
        reveal_strlit("true");
        reveal_strlit("false");
        reveal_strlit("null");
        lemma_kw_scan(s, i, kw, 0);
        let k = kw_scan(s, i, kw, 0);
        // Every matched keyword character is a real character of the text,
        // since no keyword contains the NUL sentinel.
        assert(forall|j: int| 0 <= j < kw.len() ==> #[trigger] kw[j] != '\0');
        if k > 0 {
            assert(peek_at(s, i + (k - 1)) == kw[k - 1]);
            assert(i + k <= s.len()) by {
                if i + k > s.len() {
                    assert(peek_at(s, i + (k - 1)) == '\0');
                }
            }
        }
    } else if c == '"' {
        lemma_string_scan(s, i + 1);
    } else if is_digit_char(c) || c == '-' {
        lemma_number_scan(s, i);
    }
}

/// A number scan that starts on a digit or minus stays inside the text and
/// consumes at least one character.
pub proof fn lemma_number_scan(s: Seq<char>, i: int)
    requires
        0 <= i < s.len(),
        is_digit_char(s[i]) || s[i] == '-',
    ensures
        i < number_scan(s, i).end <= s.len(),
{
    let p = if peek_at(s, i) == '-' {
        i + 1
    } else {
        i
    };
    assert(i <= p <= s.len());
    if peek_at(s, p) == '0' {
        assert(p < s.len());
        lemma_number_frac(s, p + 1);
    } else if is_digit_char(peek_at(s, p)) {
        lemma_digits_end(s, p);
        lemma_number_frac(s, digits_end(s, p));
    } else {
        // The scan failed right after the minus, which it must have consumed:
        // the scan starts on a digit or a minus, and a digit takes the branch
        // above.
        assert(s[i] == '-' && p == i + 1);
    }
}

proof fn lemma_number_frac(s: Seq<char>, i: int)
    requires
        0 <= i <= s.len(),
    ensures
        i <= number_frac(s, i).end <= s.len(),
{
    if peek_at(s, i) == '.' {
        lemma_digits_end(s, i + 1);
        lemma_number_exp(s, digits_end(s, i + 1));
    } else {
        lemma_number_exp(s, i);
    }
}

proof fn lemma_number_exp(s: Seq<char>, i: int)
    requires
        0 <= i <= s.len(),
    ensures
        i <= number_exp(s, i).end <= s.len(),
{
    if peek_at(s, i) == 'e' || peek_at(s, i) == 'E' {
        let p = if peek_at(s, i + 1) == '+' || peek_at(s, i + 1) == '-' {
            i + 2
        } else {
            i + 1
        };
        assert(p <= s.len());
        if is_digit_char(peek_at(s, p)) {
            lemma_digits_end(s, p);
        }
    }
}

/// The spec-level shape of one produced token: its kind and the character
/// offsets it spans. Its lexeme and line follow from the offsets.
pub ghost struct TokenModel {
    pub tt: TokenType,
    pub start: int,
    pub end: int,
}

/// The spec-level shape of a lexical error: the character offsets of the
/// offending span and the message.
pub ghost struct ScanErrorModel {
    pub start: int,
    pub end: int,
    pub msg: Seq<char>,
}

/// The tokens of the text from offset `i` on: skip whitespace, stop at the
/// end, classify one token, and continue after it; the first failing step
/// aborts the whole pass.
pub open spec fn spec_tokens_from(s: Seq<char>, i: int) -> Result<
    Seq<TokenModel>,
    ScanErrorModel,
>
    decreases s.len() - i
        when 0 <= i
        via spec_tokens_from_decreases
{
    let j = ws_end(s, i);
    if j >= s.len() {
        Ok(Seq::empty())
    } else {
        let step = next_token_step(s, j);
        match step.token {
            Some(tt) => match spec_tokens_from(s, step.end) {
                Ok(rest) => Ok(seq![TokenModel { tt, start: j, end: step.end }] + rest),
                Err(e) => Err(e),
            },
            None => Err(ScanErrorModel { start: j, end: step.end, msg: step.msg }),
        }
    }
}

#[via_fn]
proof fn spec_tokens_from_decreases(s: Seq<char>, i: int) {
    let j = ws_end(s, i);
    if j < s.len() {
        if i <= s.len() {
            lemma_ws_end(s, i);
            lemma_next_token_step(s, j);
        } else {
            // Past the end of the text no whitespace can be skipped, so this
            // branch cannot be reached.
            assert(ws_end(s, i) == i);
        }
    }
}

/// The executable token agrees with its model: same kind, same offsets, the
/// lexeme is exactly the spanned source text, and the line is the one the
/// token ends on.
pub open spec fn token_matches(s: Seq<char>, t: Token, m: TokenModel) -> bool {
    &&& t.token_type == m.tt
    &&& t.position_start == m.start
    &&& t.position_end == m.end
    &&& t.lexeme@ == s.subrange(m.start, m.end)
    &&& t.line == line_at(s, m.end)
}

/// A whole token sequence agrees with its models, element by element.
pub open spec fn tokens_match(s: Seq<char>, ts: Seq<Token>, ms: Seq<TokenModel>) -> bool {
    &&& ts.len() == ms.len()
    &&& forall|k: int| 0 <= k < ts.len() ==> token_matches(s, #[trigger] ts[k], ms[k])
}

/// The executable scan error agrees with its model: same offsets and message,
/// the lexeme is the spanned source text, and line and line start are those
/// of the offset the scan stopped at.
pub open spec fn error_matches(s: Seq<char>, e: ScanError, m: ScanErrorModel) -> bool {
    &&& e.position_start == m.start
    &&& e.position_end == m.end
    &&& e.message@ == m.msg
    &&& e.lexeme@ == s.subrange(m.start, m.end)
    &&& e.line == line_at(s, m.end)
    &&& e.line_start == line_start_at(s, m.end)
}

/// Prefixing already-produced tokens onto the outcome of the remaining scan.
pub open spec fn prepend_models(
    ms: Seq<TokenModel>,
    r: Result<Seq<TokenModel>, ScanErrorModel>,
) -> Result<Seq<TokenModel>, ScanErrorModel> {
    match r {
        Ok(rest) => Ok(ms + rest),
        Err(e) => Err(e),
    }
}

/// The stateless token classifier.
pub struct Lexer {}

impl Lexer {
    /// A lexer; it holds no state of its own.
    pub fn new() -> Lexer {
        Lexer {}
    }

    /// Tokenize a whole text: the token sequence exactly as
    /// `spec_tokens_from` describes it from offset 0, or the first lexical
    /// error exactly as described there. Empty input yields an empty
    /// sequence, not an error. The character count must leave room for the
    /// line counter, a machine limit no real text reaches.
    #[verifier::loop_isolation(false)]
    pub fn get_tokens(&self, source: &str) -> (r: Result<Vec<Token>, ScanError>)
        requires
            source@.len() < usize::MAX,
        ensures
            (spec_tokens_from(source@, 0) matches Ok(models) ==> (r matches Ok(tokens)
                && tokens_match(source@, tokens@, models))),
            (spec_tokens_from(source@, 0) matches Err(m) ==> (r matches Err(e)
                && error_matches(source@, e, m))),
            source@.len() == 0 ==> (r matches Ok(tokens) && tokens@.len() == 0),
    {
        let ghost s = source@;
        let mut scanner = SourceScanner::new(source);
        let ghost mut models_done: Seq<TokenModel> = Seq::empty();
        scanner.skip_whitespace();
        proof {
            lemma_ws_end(s, 0);
            lemma_spec_tokens_ws(s, 0);
            if spec_tokens_from(s, scanner.cursor as int) is Ok {
                let rest = spec_tokens_from(s, scanner.cursor as int)->Ok_0;
                assert(Seq::<TokenModel>::empty() + rest =~= rest);
            }
        }

        while !scanner.is_at_end()
            invariant
                scanner.wf(),
                scanner.source@ == s,
                scanner.token_start == scanner.cursor,
                ws_end(s, scanner.cursor as int) == scanner.cursor as int,
                tokens_match(s, scanner.tokens@, models_done),
                spec_tokens_from(s, 0) == prepend_models(
                    models_done,
                    spec_tokens_from(s, scanner.cursor as int),
                ),
            decreases scanner.length - scanner.cursor,
        {
            let ghost cur = scanner.cursor as int;
            proof {
                lemma_next_token_step(s, cur);
            }
            let result = self.get_next_token(&mut scanner);
            match result {
                Ok(token_type) => {
                    scanner.add_token(token_type);
                    proof {
                        let step = next_token_step(s, cur);
                        let m = TokenModel { tt: step.token->Some_0, start: cur, end: step.end };
                        assert(token_matches(s, scanner.tokens@.last(), m));
                        let done1 = models_done.push(m);
                        assert forall|k: int| 0 <= k < scanner.tokens@.len() implies token_matches(
                            s,
                            #[trigger] scanner.tokens@[k],
                            done1[k],
                        ) by {
                            if k < scanner.tokens@.len() - 1 {
                                assert(token_matches(s, scanner.tokens@[k], models_done[k]));
                            }
                        }
                        assert(spec_tokens_from(s, cur) == (match spec_tokens_from(s, step.end) {
                            Ok(rest) => Ok(
                                seq![TokenModel { tt: step.token->Some_0, start: cur, end: step.end }]
                                    + rest,
                            ),
                            Err(e) => Err(e),
                        }));
                        if spec_tokens_from(s, step.end) is Ok {
                            let rest = spec_tokens_from(s, step.end)->Ok_0;
                            assert(models_done + (seq![m] + rest) =~= done1 + rest);
                        }
                        assert(spec_tokens_from(s, 0) == prepend_models(
                            done1,
                            spec_tokens_from(s, step.end),
                        ));
                        models_done = done1;
                    }
                    let ghost end = scanner.cursor as int;
                    scanner.skip_whitespace();
                    proof {
                        lemma_ws_end(s, end);
                        lemma_spec_tokens_ws(s, end);
                    }
                }
                Err(error) => {
                    let scan_error = scanner.report_error(error);
                    proof {
                        let step = next_token_step(s, cur);
                        let m = ScanErrorModel { start: cur, end: step.end, msg: step.msg };
                        assert(spec_tokens_from(s, cur) == Err::<Seq<TokenModel>, _>(m));
                        assert(error_matches(s, scan_error, m));
                    }
                    return Err(scan_error);
                }
            }
        }

        proof {
            assert(spec_tokens_from(s, scanner.cursor as int) == Ok::<_, ScanErrorModel>(
                Seq::<TokenModel>::empty(),
            ));
            assert(models_done + Seq::<TokenModel>::empty() =~= models_done);
        }
        Ok(scanner.tokens)
    }

    /// Classify the token at the scanner's cursor, consuming it. The result
    /// and the scanner's new cursor are exactly what `next_token_step` says
    /// for the cursor's offset; what the scanner has collected is untouched.
    pub fn get_next_token(&self, scanner: &mut SourceScanner) -> (r: Result<TokenType, String>)
        requires
            old(scanner).wf(),
            old(scanner).cursor < old(scanner).length,
        ensures
            final(scanner).wf(),
            final(scanner).source == old(scanner).source,
            final(scanner).length == old(scanner).length,
            final(scanner).token_start == old(scanner).token_start,
            final(scanner).tokens == old(scanner).tokens,
            final(scanner).errors == old(scanner).errors,
            final(scanner).cursor == next_token_step(old(scanner).source@, old(scanner).cursor as int).end,
            (next_token_step(old(scanner).source@, old(scanner).cursor as int).token matches Some(tt)
                ==> r == Ok::<TokenType, String>(tt)),
            (next_token_step(old(scanner).source@, old(scanner).cursor as int).token is None
                ==> (r matches Err(msg) && msg@ == next_token_step(
                old(scanner).source@,
                old(scanner).cursor as int,
            ).msg)),
    {
        proof {
            reveal(next_token_step);
        }
        let c = scanner.peek();
        match c {
            '{' => self.match_symbol(scanner, '{', TokenType::LeftBrace),
            '}' => self.match_symbol(scanner, '}', TokenType::RightBrace),
            '[' => self.match_symbol(scanner, '[', TokenType::LeftBracket),
            ']' => self.match_symbol(scanner, ']', TokenType::RightBracket),
            ':' => self.match_symbol(scanner, ':', TokenType::Colon),
            ',' => self.match_symbol(scanner, ',', TokenType::Comma),
            't' => self.match_keyword(scanner, "true", TokenType::Boolean),
            'f' => self.match_keyword(scanner, "false", TokenType::Boolean),
            'n' => self.match_keyword(scanner, "null", TokenType::Null),
            '"' => self.match_string(scanner),
            '0'..='9' | '-' => self.match_number(scanner),
            _ => {
                scanner.advance();
                Err("Unexpected character".to_owned())
            }
        }
    }

    /// Consume one character that must equal the expected punctuation symbol.
    fn match_symbol(
        &self,
        scanner: &mut SourceScanner,
        symbol: char,
        token_type: TokenType,
    ) -> (r: Result<TokenType, String>)
        requires
            old(scanner).wf(),
            old(scanner).cursor < old(scanner).length,
            old(scanner).source@[old(scanner).cursor as int] == symbol,
        ensures
            final(scanner).wf(),
            final(scanner).source == old(scanner).source,
            final(scanner).length == old(scanner).length,
            final(scanner).token_start == old(scanner).token_start,
            final(scanner).tokens == old(scanner).tokens,
            final(scanner).errors == old(scanner).errors,
            final(scanner).cursor == old(scanner).cursor + 1,
            r == Ok::<TokenType, String>(token_type),
    {
        if scanner.advance() == symbol {
            Ok(token_type)
        } else {
            // Unreachable: the dispatcher only calls this when the character
            // at the cursor is the expected symbol.
            Err("Expected symbol".to_owned())
        }
    }

    /// Match the full keyword character by character; a mismatch consumes the
    /// offending character (if any is left) and reports its index.
    #[verifier::loop_isolation(false)]
    fn match_keyword(
        &self,
        scanner: &mut SourceScanner,
        keyword: &str,
        token_type: TokenType,
    ) -> (r: Result<TokenType, String>)
        requires
            old(scanner).wf(),
            keyword@ == "true"@ || keyword@ == "false"@ || keyword@ == "null"@,
        ensures
            final(scanner).wf(),
            final(scanner).source == old(scanner).source,
            final(scanner).length == old(scanner).length,
            final(scanner).token_start == old(scanner).token_start,
            final(scanner).tokens == old(scanner).tokens,
            final(scanner).errors == old(scanner).errors,
            final(scanner).cursor == kw_step(
                old(scanner).source@,
                old(scanner).cursor as int,
                keyword@,
                token_type,
            ).end,
            (kw_step(old(scanner).source@, old(scanner).cursor as int, keyword@, token_type).token
                matches Some(tt) ==> r == Ok::<TokenType, String>(tt)),
            (kw_step(old(scanner).source@, old(scanner).cursor as int, keyword@, token_type).token
                is None ==> (r matches Err(msg) && msg@ == kw_step(
                old(scanner).source@,
                old(scanner).cursor as int,
                keyword@,
                token_type,
            ).msg)),
    {
        let ghost s = old(scanner).source@;
        let ghost c0 = old(scanner).cursor as int;
        let n = keyword.unicode_len();
        let mut i: usize = 0;
        proof {
            lemma_kw_scan(s, c0, keyword@, 0);
        }
        while i < n
            invariant
                scanner.wf(),
                scanner.source == old(scanner).source,
                scanner.length == old(scanner).length,
                scanner.token_start == old(scanner).token_start,
                scanner.tokens == old(scanner).tokens,
                scanner.errors == old(scanner).errors,
                n == keyword@.len(),
                i <= n,
                scanner.cursor == c0 + i,
                kw_scan(s, c0, keyword@, 0) == kw_scan(s, c0, keyword@, i as int),
                kw_scan(s, c0, keyword@, 0) >= i,
            decreases n - i,
        {
            let expected = keyword.get_char(i);
            let got = scanner.peek();
            if got != expected {
                proof {
                    assert(kw_scan(s, c0, keyword@, i as int) == i);
                }
                if !scanner.is_at_end() {
                    scanner.advance();
                }
                return Err(keyword_error_message(keyword, i));
            }
            proof {
                // The matched character is a real character of the text: no
                // keyword contains the NUL sentinel.
                reveal_strlit("true");
                reveal_strlit("false");
                reveal_strlit("null");
                assert(peek_at(s, c0 + i) == keyword@[i as int]);
                assert(c0 + i < s.len()) by {
                    if c0 + i >= s.len() {
                        assert(peek_at(s, c0 + i) == '\0');
                    }
                }
            }
            scanner.advance();
            i = i + 1;
        }
        proof {
            assert(kw_scan(s, c0, keyword@, n as int) == n);
        }
        Ok(token_type)
    }

    /// Scan a string literal: the opening quote, then the body as
    /// `string_scan` describes it.
    #[verifier::loop_isolation(false)]
    fn match_string(&self, scanner: &mut SourceScanner) -> (r: Result<TokenType, String>)
        requires
            old(scanner).wf(),
            old(scanner).cursor < old(scanner).length,
            old(scanner).source@[old(scanner).cursor as int] == '"',
        ensures
            final(scanner).wf(),
            final(scanner).source == old(scanner).source,
            final(scanner).length == old(scanner).length,
            final(scanner).token_start == old(scanner).token_start,
            final(scanner).tokens == old(scanner).tokens,
            final(scanner).errors == old(scanner).errors,
            final(scanner).cursor == string_scan(
                old(scanner).source@,
                old(scanner).cursor as int + 1,
            ).end,
            (string_scan(old(scanner).source@, old(scanner).cursor as int + 1).token matches Some(
                tt,
            ) ==> r == Ok::<TokenType, String>(tt)),
            (string_scan(old(scanner).source@, old(scanner).cursor as int + 1).token is None ==> (
            r matches Err(msg) && msg@ == string_scan(
                old(scanner).source@,
                old(scanner).cursor as int + 1,
            ).msg)),
    {
        let ghost s = old(scanner).source@;
        let ghost body = old(scanner).cursor as int + 1;
        if scanner.advance() != '"' {
            // Unreachable: the dispatcher only calls this on a quote.
            return Err("Expected '\"' at start of string".to_owned());
        }

        loop
            invariant
                scanner.wf(),
                scanner.source == old(scanner).source,
                scanner.length == old(scanner).length,
                scanner.token_start == old(scanner).token_start,
                scanner.tokens == old(scanner).tokens,
                scanner.errors == old(scanner).errors,
                body <= scanner.cursor,
                string_scan(s, body) == string_scan(s, scanner.cursor as int),
            decreases scanner.length - scanner.cursor,
        {
            let ghost p = scanner.cursor as int;
            if scanner.is_at_end() {
                return Err("Unterminated string".to_owned());
            }
            let c = scanner.peek();
            if c == '\n' {
                return Err("Unescaped newline in string".to_owned());
            }
            if c == '\t' {
                return Err("Unescaped tab in string".to_owned());
            }
            if c == '"' {
                scanner.advance();
                return Ok(TokenType::String);
            }
            if c == '\\' {
                scanner.advance();
                let e = scanner.peek();
                match e {
                    '\\' | '/' | '"' | 'b' | 'f' | 'n' | 'r' | 't' => {
                        scanner.advance();
                    }
                    'u' => {
                        scanner.advance();
                        let ghost u0 = scanner.cursor as int;
                        let mut k: usize = 0;
                        while k < 4
                            invariant
                                scanner.wf(),
                                scanner.source == old(scanner).source,
                                scanner.length == old(scanner).length,
                                scanner.token_start == old(scanner).token_start,
                                scanner.tokens == old(scanner).tokens,
                                scanner.errors == old(scanner).errors,
                                k <= 4,
                                scanner.cursor == u0 + k,
                                hex_prefix_len(s, u0, 4) == k + hex_prefix_len(
                                    s,
                                    u0 + k,
                                    4 - k,
                                ),
                            decreases 4 - k,
                        {
                            let h = scanner.peek();
                            if !self.is_hex(h) {
                                proof {
                                    assert(hex_prefix_len(s, u0 + k, 4 - k) == 0);
                                    lemma_hex_prefix_len(s, u0, 4);
                                    assert(hex_prefix_len(s, u0, 4) == k);
                                }
                                return Err("Invalid escape character".to_owned());
                            }
                            scanner.advance();
                            k = k + 1;
                        }
                        proof {
                            assert(hex_prefix_len(s, u0, 4) == 4);
                        }
                    }
                    _ => {
                        return Err("Invalid escape character".to_owned());
                    }
                }
            } else {
                scanner.advance();
            }
        }
    }

    /// Scan a number literal exactly as `number_scan` describes it.
    fn match_number(&self, scanner: &mut SourceScanner) -> (r: Result<TokenType, String>)
        requires
            old(scanner).wf(),
        ensures
            final(scanner).wf(),
            final(scanner).source == old(scanner).source,
            final(scanner).length == old(scanner).length,
            final(scanner).token_start == old(scanner).token_start,
            final(scanner).tokens == old(scanner).tokens,
            final(scanner).errors == old(scanner).errors,
            final(scanner).cursor == number_scan(old(scanner).source@, old(scanner).cursor as int).end,
            (number_scan(old(scanner).source@, old(scanner).cursor as int).token matches Some(tt)
                ==> r == Ok::<TokenType, String>(tt)),
            (number_scan(old(scanner).source@, old(scanner).cursor as int).token is None ==> (
            r matches Err(msg) && msg@ == number_scan(
                old(scanner).source@,
                old(scanner).cursor as int,
            ).msg)),
    {
        let ghost s = old(scanner).source@;
        if scanner.peek() == '-' {
            scanner.advance();
        }

        let ghost p = scanner.cursor as int;
        if scanner.peek() == '0' {
            scanner.advance();
            if self.is_digit(scanner.peek()) {
                return Err("Invalid number - no leading zeros".to_owned());
            }
        } else if self.is_digit(scanner.peek()) {
            self.consume_digits(scanner);
        } else {
            return Err("Invalid number - expected digit".to_owned());
        }

        if scanner.peek() == '.' {
            scanner.advance();
            self.consume_digits(scanner);
        }

        if scanner.peek() == 'e' || scanner.peek() == 'E' {
            scanner.advance();
            if scanner.peek() == '+' || scanner.peek() == '-' {
                scanner.advance();
            }
            let next = scanner.peek();
            if !self.is_digit(next) {
                return Err("Expected digit after exponent".to_owned());
            }
            self.consume_digits(scanner);
        }

        Ok(TokenType::Number)
    }

    /// Consume the digit run at the cursor, if any.
    #[verifier::loop_isolation(false)]
    fn consume_digits(&self, scanner: &mut SourceScanner)
        requires
            old(scanner).wf(),
        ensures
            final(scanner).wf(),
            final(scanner).source == old(scanner).source,
            final(scanner).length == old(scanner).length,
            final(scanner).token_start == old(scanner).token_start,
            final(scanner).tokens == old(scanner).tokens,
            final(scanner).errors == old(scanner).errors,
            final(scanner).cursor == digits_end(old(scanner).source@, old(scanner).cursor as int),
    {
        let ghost s = old(scanner).source@;
        let ghost c0 = old(scanner).cursor as int;
        while scanner.peek() >= '0' && scanner.peek() <= '9'
            invariant
                scanner.wf(),
                scanner.source == old(scanner).source,
                scanner.length == old(scanner).length,
                scanner.token_start == old(scanner).token_start,
                scanner.tokens == old(scanner).tokens,
                scanner.errors == old(scanner).errors,
                c0 <= scanner.cursor,
                digits_end(s, c0) == digits_end(s, scanner.cursor as int),
            decreases scanner.length - scanner.cursor,
        {
            scanner.advance();
        }
    }

    /// Whether the character is a decimal digit.
    fn is_digit(&self, c: char) -> (r: bool)
        ensures
            r == is_digit_char(c),
    {
        c >= '0' && c <= '9'
    }

    /// Whether the character is a hexadecimal digit of either case.
    fn is_hex(&self, c: char) -> (r: bool)
        ensures
            r == is_hex_char(c),
    {
        self.is_digit(c) || (c >= 'a' && c <= 'f') || (c >= 'A' && c <= 'F')
    }
}

/// The message for a keyword mismatch at the given index, spelled per
/// keyword; agrees with `keyword_mismatch_msg`.
fn keyword_error_message(keyword: &str, i: usize) -> (r: String)
    requires
        keyword@ == "true"@ || keyword@ == "false"@ || keyword@ == "null"@,
        i < keyword@.len(),
    ensures
        r@ == keyword_mismatch_msg(keyword@, i as int),
{
    proof {
        reveal_strlit("true");
        reveal_strlit("false");
        reveal_strlit("null");
    }
    let c0 = keyword.get_char(0);
    if c0 == 't' {
        match i {
            0 => "Expected 't' at index 0 of keyword".to_owned(),
            1 => "Expected 'r' at index 1 of keyword".to_owned(),
            2 => "Expected 'u' at index 2 of keyword".to_owned(),
            _ => "Expected 'e' at index 3 of keyword".to_owned(),
        }
    } else if c0 == 'f' {
        match i {
            0 => "Expected 'f' at index 0 of keyword".to_owned(),
            1 => "Expected 'a' at index 1 of keyword".to_owned(),
            2 => "Expected 'l' at index 2 of keyword".to_owned(),
            3 => "Expected 's' at index 3 of keyword".to_owned(),
            _ => "Expected 'e' at index 4 of keyword".to_owned(),
        }
    } else {
        match i {
            0 => "Expected 'n' at index 0 of keyword".to_owned(),
            1 => "Expected 'u' at index 1 of keyword".to_owned(),
            2 => "Expected 'l' at index 2 of keyword".to_owned(),
            _ => "Expected 'l' at index 3 of keyword".to_owned(),
        }
    }
}

/// The tokens of a text tile it from left to right: each token spans a
/// non-empty range of the text, consecutive tokens do not overlap and their
/// offsets are monotonic, and the stretch between a token and the next (and
/// the stretch before the first token, and the one after the last) is exactly
/// a whitespace run.
pub open spec fn models_tile(s: Seq<char>, i: int, models: Seq<TokenModel>) -> bool {
    &&& forall|k: int|
        0 <= k < models.len() ==> i <= (#[trigger] models[k]).start < models[k].end <= s.len()
    &&& forall|k: int|
        #![trigger models[k], models[k + 1]]
        0 <= k < models.len() - 1 ==> models[k + 1].start == ws_end(s, models[k].end)
    &&& (models.len() == 0 ==> ws_end(s, i) == s.len())
    &&& (models.len() > 0 ==> models[0].start == ws_end(s, i))
    &&& (models.len() > 0 ==> ws_end(s, models.last().end) == s.len())
}

/// A successful scan always tiles its text.
#[verifier::rlimit(100)]
#[verifier::spinoff_prover]
pub proof fn lemma_token_tiling(s: Seq<char>, i: int)
    requires
        0 <= i <= s.len(),
    ensures
        (spec_tokens_from(s, i) matches Ok(models) ==> models_tile(s, i, models)),
        (spec_tokens_from(s, i) matches Ok(models) ==> forall|k: int|
            #![trigger models[k], models[k + 1]]
            0 <= k < models.len() - 1 ==> models[k].end <= models[k + 1].start),
    decreases s.len() - i,
{
    lemma_ws_end(s, i);
    let j = ws_end(s, i);
    if j < s.len() {
        lemma_next_token_step(s, j);
        let step = next_token_step(s, j);
        if step.token is Some {
            lemma_token_tiling(s, step.end);
            if spec_tokens_from(s, step.end) is Ok {
                let rest = spec_tokens_from(s, step.end)->Ok_0;
                let m = TokenModel { tt: step.token->Some_0, start: j, end: step.end };
                let models = seq![m] + rest;
                assert(spec_tokens_from(s, i) == Ok::<_, ScanErrorModel>(models));
                assert(models[0] == m);
                assert(forall|k: int| 1 <= k < models.len() ==> models[k] == rest[k - 1]);
                assert(models_tile(s, step.end, rest));
                lemma_ws_end(s, step.end);
                assert forall|k: int|
                    0 <= k < models.len() implies i <= (#[trigger] models[k]).start
                    < models[k].end <= s.len() by {
                    if k >= 1 {
                        assert(models[k] == rest[k - 1]);
                    }
                }
                assert forall|k: int|
                    #![trigger models[k], models[k + 1]]
                    0 <= k < models.len() - 1 implies models[k + 1].start == ws_end(
                    s,
                    models[k].end,
                ) by {
                    if k == 0 {
                        assert(rest.len() > 0);
                        assert(models[1] == rest[0]);
                        assert(rest[0].start == ws_end(s, step.end));
                    } else {
                        assert(models[k] == rest[k - 1]);
                        assert(models[k + 1] == rest[k]);
                        assert(rest[(k - 1) + 1] == rest[k]);
                        assert(rest[(k - 1) + 1].start == ws_end(s, rest[k - 1].end));
                    }
                }
                if rest.len() == 0 {
                    assert(models.last() == m);
                } else {
                    assert(models.last() == rest.last());
                }
                assert(models_tile(s, i, models));
            }
        }
    }
    if spec_tokens_from(s, i) is Ok {
        let models = spec_tokens_from(s, i)->Ok_0;
        assert forall|k: int|
            #![trigger models[k], models[k + 1]]
            0 <= k < models.len() - 1 implies models[k].end <= models[k + 1].start by {
            assert(i <= models[k].start < models[k].end <= s.len());
            lemma_ws_end(s, models[k].end);
        }
    }
}

/// Skipping whitespace before scanning changes nothing: the scan skips that
/// whitespace itself.
pub proof fn lemma_spec_tokens_ws(s: Seq<char>, i: int)
    requires
        0 <= i <= s.len(),
    ensures
        spec_tokens_from(s, i) == spec_tokens_from(s, ws_end(s, i)),
{
    lemma_ws_end(s, i);
    lemma_ws_end_idempotent(s, i);
}

/// Whitespace skipping is idempotent.
proof fn lemma_ws_end_idempotent(s: Seq<char>, i: int)
    requires
        0 <= i <= s.len(),
    ensures
        ws_end(s, ws_end(s, i)) == ws_end(s, i),
{
    lemma_ws_end(s, i);
}

} // verus!
