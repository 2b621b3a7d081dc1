//! A read-only forward cursor over an already-built, immutable token
//! sequence. The cursor convention is asymmetric on purpose: `current` means
//! "the token at the cursor", while `is_at_end` is already true while the
//! cursor rests *on* the final token, not only past it.

use vstd::prelude::*;

use crate::types::{token_eqv, Token};

verus! {

/// A forward cursor over a borrowed token sequence. It never mutates the
/// sequence.
pub struct TokenScanner<'a> {
    pub tokens: &'a Vec<Token>,
    pub cursor: usize,
    pub length: usize,
}

impl<'a> TokenScanner<'a> {
    /// Internal consistency: the sequence is non-empty and the cursor rests
    /// on one of its tokens.
    pub open spec fn wf(&self) -> bool {
        &&& self.length == self.tokens@.len()
        &&& self.length >= 1
        &&& self.cursor < self.length
    }

    /// A fresh cursor on the first token. The sequence must be non-empty.
    pub fn new(tokens: &'a Vec<Token>) -> (s: TokenScanner<'a>)
        requires
            tokens@.len() >= 1,
        ensures
            s.wf(),
            s.tokens == tokens,
            s.cursor == 0,
    {
        TokenScanner { tokens, cursor: 0, length: tokens.len() }
    }

    /// The token at the cursor.
    pub fn current(&self) -> (r: Option<Token>)
        requires
            self.wf(),
        ensures
            (r matches Some(t) && token_eqv(t, self.tokens@[self.cursor as int])),
    {
        Some(self.tokens[self.cursor].clone())
    }

    /// Whether the cursor rests on the final token (or would be past it).
    pub fn is_at_end(&self) -> (r: bool)
        requires
            self.wf(),
        ensures
            r == (self.cursor >= self.length - 1),
    {
        self.cursor >= self.length - 1
    }

    /// If already at the end this is a no-op that returns nothing; otherwise
    /// the cursor moves forward one token and that new token is returned.
    pub fn advance(&mut self) -> (r: Option<Token>)
        requires
            old(self).wf(),
        ensures
            final(self).wf(),
            final(self).tokens == old(self).tokens,
            final(self).length == old(self).length,
            old(self).cursor >= old(self).length - 1 ==> (r is None && final(self).cursor == old(
                self,
            ).cursor),
            old(self).cursor < old(self).length - 1 ==> (final(self).cursor == old(self).cursor
                + 1 && (r matches Some(t) && token_eqv(
                t,
                final(self).tokens@[final(self).cursor as int],
            ))),
    {
        if self.is_at_end() {
            return None;
        }

        self.cursor = self.cursor + 1;
        Some(self.tokens[self.cursor].clone())
    }
}

} // verus!
