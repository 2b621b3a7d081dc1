//! Character cursor over a borrowed, immutable source text with line/column
//! bookkeeping. The cursor counts characters; `line` and `line_start` always
//! agree with the spec-level `line_at` and `line_start_at` of the cursor.

use vstd::prelude::*;
use vstd::string::StrSliceExecFns;

use crate::types::{
    is_ws_char, line_at, line_start_at, lemma_newline_count_le, ScanError, Token, TokenType,
};

verus! {

/// Where a whitespace run that starts at offset `i` ends: the first offset at
/// or after `i` that holds a non-whitespace character, or the text's length.
pub open spec fn ws_end(s: Seq<char>, i: int) -> int
    decreases s.len() - i,
{
    if 0 <= i < s.len() && is_ws_char(s[i]) {
        ws_end(s, i + 1)
    } else {
        i
    }
}

/// `ws_end` lands on a non-whitespace character or the end of the text, and
/// everything it skipped was whitespace.
pub proof fn lemma_ws_end(s: Seq<char>, i: int)
    requires
        0 <= i <= s.len(),
    ensures
        i <= ws_end(s, i) <= s.len(),
        ws_end(s, i) < s.len() ==> !is_ws_char(s[ws_end(s, i)]),
        forall|k: int| i <= k < ws_end(s, i) ==> is_ws_char(#[trigger] s[k]),
    decreases s.len() - i,
{
    if 0 <= i < s.len() && is_ws_char(s[i]) {
        lemma_ws_end(s, i + 1);
    }
}

/// A character cursor over the source text. `token_start` marks where the
/// lexeme currently being scanned began; `tokens` and `errors` collect what
/// the lexing pass produces.
pub struct SourceScanner<'a> {
    pub token_start: usize,
    pub cursor: usize,
    pub line: usize,
    pub line_start: usize,
    pub source: &'a str,
    pub length: usize,
    pub tokens: Vec<Token>,
    pub errors: Vec<ScanError>,
}

impl<'a> SourceScanner<'a> {
    /// Internal consistency: the cursor stays inside the text, the lexeme
    /// start does not pass the cursor, and the line bookkeeping agrees with
    /// the character counts.
    pub open spec fn wf(&self) -> bool {
        &&& self.length == self.source@.len()
        &&& self.length < usize::MAX
        &&& self.cursor <= self.length
        &&& self.token_start <= self.cursor
        &&& self.line == line_at(self.source@, self.cursor as int)
        &&& self.line_start == line_start_at(self.source@, self.cursor as int)
    }

    /// A fresh scanner at the start of `source`, on line 1, with nothing
    /// collected yet. The character count must leave room for the line
    /// counter, a machine limit no real text reaches.
    pub fn new(source: &'a str) -> (s: SourceScanner<'a>)
        requires
            source@.len() < usize::MAX,
        ensures
            s.wf(),
            s.source@ == source@,
            s.token_start == 0,
            s.cursor == 0,
            s.line == 1,
            s.line_start == 0,
            s.tokens@ == Seq::<Token>::empty(),
            s.errors@ == Seq::<ScanError>::empty(),
    {
        let length = source.unicode_len();
        let tokens: Vec<Token> = Vec::new();
        let errors: Vec<ScanError> = Vec::new();
        proof {
            assert(tokens@ =~= Seq::<Token>::empty());
            assert(errors@ =~= Seq::<ScanError>::empty());
        }
        SourceScanner {
            token_start: 0,
            cursor: 0,
            line: 1,
            line_start: 0,
            source,
            length,
            tokens,
            errors,
        }
    }

    /// The current character without consuming it; the NUL sentinel when the
    /// cursor is at or past the end of the text.
    pub fn peek(&self) -> (c: char)
        requires
            self.wf(),
        ensures
            c == if self.cursor < self.source@.len() {
                self.source@[self.cursor as int]
            } else {
                '\0'
            },
    {
        if self.is_at_end() {
            return '\0';
        }
        self.source.get_char(self.cursor)
    }

    /// Whether the cursor is at or past the text's length.
    pub fn is_at_end(&self) -> (r: bool)
        ensures
            r == (self.cursor >= self.length),
    {
        self.cursor >= self.length
    }

    /// Consume and return the current character, advancing the line counter
    /// and line start when that character is a newline. Calling this at the
    /// end of the text is a defect, not a recoverable error.
    pub fn advance(&mut self) -> (c: char)
        requires
            old(self).wf(),
            old(self).cursor < old(self).length,
        ensures
            final(self).wf(),
            c == old(self).source@[old(self).cursor as int],
            final(self).cursor == old(self).cursor + 1,
            final(self).source == old(self).source,
            final(self).length == old(self).length,
            final(self).token_start == old(self).token_start,
            final(self).tokens == old(self).tokens,
            final(self).errors == old(self).errors,
    {
        proof {
            lemma_newline_count_le(self.source@, self.cursor as int);
        }
        let c = self.source.get_char(self.cursor);
        self.cursor = self.cursor + 1;
        if c == '\n' {
            self.line = self.line + 1;
            self.line_start = self.cursor;
        }
        c
    }

    /// Consume a run of whitespace, then mark the current cursor as the start
    /// boundary for the next lexeme.
    pub fn skip_whitespace(&mut self)
        requires
            old(self).wf(),
        ensures
            final(self).wf(),
            final(self).cursor == ws_end(old(self).source@, old(self).cursor as int),
            final(self).token_start == final(self).cursor,
            final(self).source == old(self).source,
            final(self).length == old(self).length,
            final(self).tokens == old(self).tokens,
            final(self).errors == old(self).errors,
    {
        while self.peek() == ' ' || self.peek() == '\r' || self.peek() == '\t'
            || self.peek() == '\n'
            invariant
                self.wf(),
                self.source == old(self).source,
                self.length == old(self).length,
                self.token_start == old(self).token_start,
                self.tokens == old(self).tokens,
                self.errors == old(self).errors,
                old(self).cursor <= self.cursor,
                ws_end(self.source@, old(self).cursor as int)
                    == ws_end(self.source@, self.cursor as int),
            decreases self.length - self.cursor,
        {
            // At the end of the text `peek` yields the NUL sentinel, which is
            // not whitespace, so the cursor is still inside the text here.
            self.advance();
        }
        self.token_start = self.cursor;
    }

    /// Slice `[token_start, cursor)` as the lexeme and append a token built
    /// from it, stamped with the current line.
    pub fn add_token(&mut self, token_type: TokenType)
        requires
            old(self).wf(),
        ensures
            final(self).wf(),
            final(self).tokens@.len() == old(self).tokens@.len() + 1,
            final(self).tokens@ =~= old(self).tokens@.push(final(self).tokens@.last()),
            final(self).tokens@.last().token_type == token_type,
            final(self).tokens@.last().lexeme@ == final(self).source@.subrange(
                old(self).token_start as int,
                old(self).cursor as int,
            ),
            final(self).tokens@.last().line == line_at(final(self).source@, old(self).cursor as int),
            final(self).tokens@.last().position_start == old(self).token_start,
            final(self).tokens@.last().position_end == old(self).cursor,
            final(self).token_start == old(self).token_start,
            final(self).cursor == old(self).cursor,
            final(self).source == old(self).source,
            final(self).length == old(self).length,
            final(self).line == old(self).line,
            final(self).line_start == old(self).line_start,
            final(self).errors == old(self).errors,
    {
        let lexeme = self.source.substring_char(self.token_start, self.cursor).to_owned();
        self.tokens.push(Token {
            token_type,
            lexeme,
            line: self.line,
            position_start: self.token_start,
            position_end: self.cursor,
        });
    }

    /// Slice `[token_start, cursor)` as the offending lexeme and build a
    /// `ScanError` from the current location, recording it and returning it.
    pub fn report_error(&mut self, message: String) -> (e: ScanError)
        requires
            old(self).wf(),
        ensures
            final(self).wf(),
            e.line == line_at(final(self).source@, old(self).cursor as int),
            e.line_start == line_start_at(final(self).source@, old(self).cursor as int),
            e.lexeme@ == final(self).source@.subrange(
                old(self).token_start as int,
                old(self).cursor as int,
            ),
            e.position_start == old(self).token_start,
            e.position_end == old(self).cursor,
            e.message@ == message@,
            final(self).errors@.len() == old(self).errors@.len() + 1,
            final(self).errors@ =~= old(self).errors@.push(final(self).errors@.last()),
            final(self).errors@.last().line == e.line,
            final(self).errors@.last().line_start == e.line_start,
            final(self).errors@.last().lexeme@ == e.lexeme@,
            final(self).errors@.last().position_start == e.position_start,
            final(self).errors@.last().position_end == e.position_end,
            final(self).errors@.last().message@ == e.message@,
            final(self).token_start == old(self).token_start,
            final(self).cursor == old(self).cursor,
            final(self).source == old(self).source,
            final(self).length == old(self).length,
            final(self).line == old(self).line,
            final(self).line_start == old(self).line_start,
            final(self).tokens == old(self).tokens,
    {
        let lexeme = self.source.substring_char(self.token_start, self.cursor).to_owned();
        let recorded = ScanError {
            line: self.line,
            line_start: self.line_start,
            lexeme: lexeme.clone(),
            position_start: self.token_start,
            position_end: self.cursor,
            message: message.clone(),
        };
        let scan_error = ScanError {
            line: self.line,
            line_start: self.line_start,
            lexeme,
            position_start: self.token_start,
            position_end: self.cursor,
            message,
        };
        self.errors.push(recorded);
        scan_error
    }
}

} // verus!
