//! The grammar validator: a non-recursive pushdown automaton over a token
//! sequence. An explicit stack of pending continuation states replaces native
//! recursion, so nesting depth never grows a call chain.
//!
//! The automaton is mirrored by the spec-level `run`, and `run` in turn is
//! proved sound and complete against the declarative token grammar of
//! `crate::grammar`, so `parse` carries a contract in terms of
//! `is_valid_document` alone.

use vstd::prelude::*;

use crate::grammar::{
    lemma_document_shape,
    completed_with, is_valid_document, items_tokens, lemma_tokens_of_shape, member_tokens,
    members_tokens, tokens_of, valid_prefix_to, JsonShape,
};
use crate::token_scanner::TokenScanner;
use crate::types::{Token, TokenType};

verus! {

/// A point in the grammar's pushdown automaton: the construct currently being
/// parsed, the error sink `Invalid`, or the terminal success `End`. Internal
/// to the analyzer, never exposed.
#[derive(Copy, Clone, PartialEq, Eq, Structural, Debug)]
enum StateType {
    Object,
    ObjectProperty,
    ObjectPropertyEnd,
    Array,
    ArrayItem,
    ArrayItemEnd,
    Invalid,
    End,
}

/// The coarse kind of the first grammar error. It carries no text or
/// location; callers pair it with the token cursor's position for
/// diagnostics.
#[derive(Debug, PartialEq, Eq, Structural)]
pub enum ErrorType {
    EmptyTokens,
    InvalidInitialState,
    UnexpectedToken,
    UnexpectedState,
    TrailingTokens,
}

/// The kinds of a token sequence, which are all the automaton ever reads.
pub open spec fn token_types(tokens: Seq<Token>) -> Seq<TokenType> {
    Seq::new(tokens.len(), |i: int| tokens[i].token_type)
}

/// One handler step: the next state (`None` means the current construct is
/// structurally complete) and the cursor after the handler ran.
ghost struct Step {
    next: Option<StateType>,
    cur: int,
}

/// Where the token cursor lands after one advance: one forward, except that
/// at the final token it stays put.
spec fn adv(ts: Seq<TokenType>, i: int) -> int {
    if i < ts.len() - 1 {
        i + 1
    } else {
        i
    }
}

/// The Object handler: expects `{`; an immediate `}` completes an empty
/// object; a String key opens a member; anything else (or a missing next
/// token) is invalid.
spec fn h_object(ts: Seq<TokenType>, i: int) -> Step {
    if ts[i] != TokenType::LeftBrace {
        Step { next: Some(StateType::Invalid), cur: i }
    } else if i >= ts.len() - 1 {
        Step { next: Some(StateType::Invalid), cur: i }
    } else if ts[i + 1] == TokenType::RightBrace {
        Step { next: None, cur: i + 1 }
    } else if ts[i + 1] == TokenType::String {
        Step { next: Some(StateType::ObjectProperty), cur: i + 1 }
    } else {
        Step { next: Some(StateType::Invalid), cur: i + 1 }
    }
}

/// The Array handler: expects `[`; an immediate `]` completes an empty array;
/// a leading comma is forbidden; anything else begins the first item.
spec fn h_array(ts: Seq<TokenType>, i: int) -> Step {
    if ts[i] != TokenType::LeftBracket {
        Step { next: Some(StateType::Invalid), cur: i }
    } else if i >= ts.len() - 1 {
        Step { next: Some(StateType::Invalid), cur: i }
    } else if ts[i + 1] == TokenType::RightBracket {
        Step { next: None, cur: i + 1 }
    } else if ts[i + 1] == TokenType::Comma {
        Step { next: Some(StateType::Invalid), cur: i + 1 }
    } else {
        Step { next: Some(StateType::ArrayItem), cur: i + 1 }
    }
}

/// The value dispatch: `{` and `[` descend into their handlers, a literal
/// completes in place, anything else is invalid.
spec fn h_value(ts: Seq<TokenType>, i: int) -> Step {
    if ts[i] == TokenType::LeftBrace {
        h_object(ts, i)
    } else if ts[i] == TokenType::LeftBracket {
        h_array(ts, i)
    } else if ts[i].spec_is_literal() {
        Step { next: None, cur: i }
    } else {
        Step { next: Some(StateType::Invalid), cur: i }
    }
}

/// The ObjectProperty handler: a String key, a colon, then the member's
/// value by the value dispatch.
spec fn h_obj_prop(ts: Seq<TokenType>, i: int) -> Step {
    if ts[i] != TokenType::String {
        Step { next: Some(StateType::Invalid), cur: i }
    } else if i >= ts.len() - 1 {
        Step { next: Some(StateType::Invalid), cur: i }
    } else if ts[i + 1] != TokenType::Colon {
        Step { next: Some(StateType::Invalid), cur: i + 1 }
    } else if i + 1 >= ts.len() - 1 {
        Step { next: Some(StateType::Invalid), cur: i + 1 }
    } else {
        h_value(ts, i + 2)
    }
}

/// The ObjectPropertyEnd handler: a comma opens the next member, `}`
/// completes the object, anything else is invalid. A comma at the final token
/// is invalid at once: no member can follow it, and consuming it first would
/// reach the same verdict one step later.
spec fn h_obj_prop_end(ts: Seq<TokenType>, i: int) -> Step {
    if ts[i] == TokenType::Comma {
        if i >= ts.len() - 1 {
            Step { next: Some(StateType::Invalid), cur: i }
        } else {
            Step { next: Some(StateType::ObjectProperty), cur: i + 1 }
        }
    } else if ts[i] == TokenType::RightBrace {
        Step { next: None, cur: i }
    } else {
        Step { next: Some(StateType::Invalid), cur: i }
    }
}

/// The ArrayItemEnd handler: a comma opens the next item, `]` completes the
/// array, anything else is invalid. A comma at the final token is invalid at
/// once, as in `h_obj_prop_end`.
spec fn h_arr_item_end(ts: Seq<TokenType>, i: int) -> Step {
    if ts[i] == TokenType::Comma {
        if i >= ts.len() - 1 {
            Step { next: Some(StateType::Invalid), cur: i }
        } else {
            Step { next: Some(StateType::ArrayItem), cur: i + 1 }
        }
    } else if ts[i] == TokenType::RightBracket {
        Step { next: None, cur: i }
    } else {
        Step { next: Some(StateType::Invalid), cur: i }
    }
}

/// The handler that a working state dispatches to.
spec fn step_of(ts: Seq<TokenType>, i: int, state: StateType) -> Step {
    match state {
        StateType::Object => h_object(ts, i),
        StateType::ObjectProperty => h_obj_prop(ts, i),
        StateType::ObjectPropertyEnd => h_obj_prop_end(ts, i),
        StateType::Array => h_array(ts, i),
        StateType::ArrayItem => h_value(ts, i),
        StateType::ArrayItemEnd => h_arr_item_end(ts, i),
        _ => Step { next: None, cur: i },
    }
}

/// The continuation pushed when descending into state `ns` from `state`:
/// member and item states get their end states; otherwise the current state
/// itself.
spec fn push_for(stack: Seq<StateType>, state: StateType, ns: StateType) -> Seq<StateType> {
    if ns == StateType::ObjectProperty {
        stack.push(StateType::ObjectPropertyEnd)
    } else if ns == StateType::ArrayItem {
        stack.push(StateType::ArrayItemEnd)
    } else {
        stack.push(state)
    }
}

/// The termination measure of the automaton: how many tokens lie strictly
/// after the cursor, up to the final one.
spec fn rem(ts: Seq<TokenType>, i: int) -> int {
    if i < ts.len() - 1 {
        ts.len() - 1 - i
    } else {
        0
    }
}

/// The error sink and the terminal state rank below the working states.
spec fn state_rank(state: StateType) -> int {
    match state {
        StateType::Invalid => 0,
        StateType::End => 0,
        _ => 1,
    }
}

/// A handler never moves the cursor backwards or past the final token, a
/// descent into a working state always consumes at least one token, and no
/// handler ever names the terminal state.
proof fn lemma_step_of(ts: Seq<TokenType>, i: int, state: StateType)
    requires
        0 <= i < ts.len(),
    ensures
        i <= step_of(ts, i, state).cur < ts.len(),
        (step_of(ts, i, state).next matches Some(ns) && ns != StateType::Invalid ==> i < step_of(
            ts,
            i,
            state,
        ).cur),
        (step_of(ts, i, state).next matches Some(ns) ==> ns != StateType::End),
{
}

/// The automaton, run to completion from one configuration: `Some(c)` is
/// acceptance of the tokens up to cursor `c`, `None` is a grammar violation.
/// On `None` from a handler the child construct is complete: the cursor
/// consumes its closing token and the parent context resumes from the stack;
/// with an empty stack the run is done at the current cursor.
spec fn run(ts: Seq<TokenType>, i: int, state: StateType, stack: Seq<StateType>) -> Option<int>
    decreases rem(ts, i), state_rank(state), stack.len()
        when 0 <= i < ts.len()
        via run_decreases
{
    match state {
        StateType::Invalid => None,
        StateType::End => Some(i),
        _ => {
            let st = step_of(ts, i, state);
            match st.next {
                Some(ns) => run(ts, st.cur, ns, push_for(stack, state, ns)),
                None => {
                    if stack.len() > 0 {
                        run(ts, adv(ts, st.cur), stack.last(), stack.drop_last())
                    } else {
                        Some(st.cur)
                    }
                },
            }
        },
    }
}

#[via_fn]
proof fn run_decreases(ts: Seq<TokenType>, i: int, state: StateType, stack: Seq<StateType>) {
    if state != StateType::Invalid && state != StateType::End {
        lemma_step_of(ts, i, state);
    }
}

/// Where the run resumes once a construct has completed with its cursor on
/// its closing token at `j`: done if nothing is pending, otherwise the
/// topmost continuation takes over just past the closer.
spec fn val_continue(ts: Seq<TokenType>, j: int, stack: Seq<StateType>) -> Option<int> {
    if stack.len() == 0 {
        Some(j)
    } else {
        run(ts, adv(ts, j), stack.last(), stack.drop_last())
    }
}

/// The initial state chosen from the first token.
spec fn init_state(ts: Seq<TokenType>) -> StateType {
    if ts[0] == TokenType::LeftBrace {
        StateType::Object
    } else if ts[0] == TokenType::LeftBracket {
        StateType::Array
    } else {
        StateType::Invalid
    }
}

/// The explicit-stack pushdown automaton consuming a `TokenScanner`. The
/// stack is reset at the start of every `parse` call, so no state survives
/// between calls.
pub struct SyntaxAnalyzer {
    stack: Vec<StateType>,
}

impl SyntaxAnalyzer {
    /// Whether the analyzer holds no pending continuation states: true of a
    /// fresh analyzer, and again when `parse` returns, whatever the outcome.
    pub closed spec fn stack_is_empty(&self) -> bool {
        self.stack@.len() == 0
    }

    /// A fresh analyzer with an empty stack, ready for a `parse` call.
    pub fn new() -> (s: SyntaxAnalyzer)
        ensures
            s.stack_is_empty(),
    {
        SyntaxAnalyzer { stack: vec![] }
    }

    /// Validate a token sequence against the JSON grammar, reporting accept
    /// or the first error's coarse kind. Only the tokens' kinds matter.
    ///
    /// The contract is exact. An empty sequence is `EmptyTokens`; a first
    /// token other than `{`/`[` is `InvalidInitialState`. The sequence is
    /// accepted precisely when appending some number of copies of its final
    /// token (possibly none) yields a well-formed document, so every
    /// well-formed document is accepted, and beyond those only sequences that
    /// end exactly at a nested construct's closing token, where the cursor
    /// cannot move past the final token and that closer also stands in for
    /// the pending outer constructs' closers. `TrailingTokens` comes
    /// precisely when a well-formed proper prefix is followed by more tokens;
    /// `UnexpectedToken` precisely when neither any prefix nor any completion
    /// of the sequence is well-formed; the defensive `UnexpectedState` is
    /// never returned.
    #[verifier::loop_isolation(false)]
    pub fn parse(&mut self, tokens: Vec<Token>) -> (r: Result<(), ErrorType>)
        ensures
            (r == Err::<(), ErrorType>(ErrorType::EmptyTokens)) <==> tokens@.len() == 0,
            (r == Err::<(), ErrorType>(ErrorType::InvalidInitialState)) <==> (tokens@.len() > 0
                && token_types(tokens@)[0] != TokenType::LeftBrace && token_types(tokens@)[0]
                != TokenType::LeftBracket),
            is_valid_document(token_types(tokens@)) ==> r == Ok::<(), ErrorType>(()),
            (r == Ok::<(), ErrorType>(())) <==> (exists|k: nat|
                is_valid_document(#[trigger] completed_with(token_types(tokens@), k))),
            (r == Err::<(), ErrorType>(ErrorType::TrailingTokens)) <==> (exists|j: int|
                valid_prefix_to(token_types(tokens@), j) && j < token_types(tokens@).len() - 1),
            (r == Err::<(), ErrorType>(ErrorType::UnexpectedToken)) <==> (tokens@.len() > 0 && (
            token_types(tokens@)[0] == TokenType::LeftBrace || token_types(tokens@)[0]
                == TokenType::LeftBracket) && !(exists|j: int|
                valid_prefix_to(token_types(tokens@), j)) && !(exists|k: nat|
                is_valid_document(#[trigger] completed_with(token_types(tokens@), k)))),
            r != Err::<(), ErrorType>(ErrorType::UnexpectedState),
            final(self).stack_is_empty(),
    {
        // The state stack is allocated fresh per call and discarded at the
        // end, success or failure: no state survives between calls.
        self.stack = Vec::new();
        let ghost ts = token_types(tokens@);
        if tokens.len() == 0 {
            proof {
                if is_valid_document(ts) {
                    lemma_document_shape(ts);
                }
                if exists|kk: nat| is_valid_document(completed_with(ts, kk)) {
                    let kk = choose|kk: nat| is_valid_document(completed_with(ts, kk));
                    lemma_document_shape(completed_with(ts, kk));
                    // Every token of the completion of an empty sequence is
                    // the same value, but a document opens and closes with
                    // different tokens.
                    assert(completed_with(ts, kk).first() == completed_with(ts, kk).last());
                    assert(false);
                }
            }
            return Err(ErrorType::EmptyTokens);
        }
        assert(ts.len() == tokens@.len());

        let mut scanner = TokenScanner::new(&tokens);

        let first_token: Token = scanner.current().unwrap();
        let mut state = match first_token.token_type {
            TokenType::LeftBrace => StateType::Object,
            TokenType::LeftBracket => StateType::Array,
            _ => StateType::Invalid,
        };

        if state == StateType::Invalid {
            proof {
                assert(ts[0] != TokenType::LeftBrace && ts[0] != TokenType::LeftBracket);
                if is_valid_document(ts) {
                    lemma_document_shape(ts);
                }
                if exists|j: int| valid_prefix_to(ts, j) {
                    let j = choose|j: int| valid_prefix_to(ts, j);
                    lemma_document_shape(ts.subrange(0, j + 1));
                    assert(ts.subrange(0, j + 1)[0] == ts[0]);
                }
                if exists|kk: nat| is_valid_document(completed_with(ts, kk)) {
                    let kk = choose|kk: nat| is_valid_document(completed_with(ts, kk));
                    lemma_document_shape(completed_with(ts, kk));
                    assert(completed_with(ts, kk).first() == ts[0]);
                    assert(false);
                }
            }
            return Err(ErrorType::InvalidInitialState);
        }

        let ghost r0 = run(ts, 0, init_state(ts), Seq::empty());
        proof {
            assert(self.stack@ =~= Seq::<StateType>::empty());
        }

        while state != StateType::End
            invariant
                scanner.wf(),
                scanner.tokens@ == tokens@,
                ts == token_types(tokens@),
                ts.len() == tokens@.len() >= 1,
                ts[0] == TokenType::LeftBrace || ts[0] == TokenType::LeftBracket,
                scanner.cursor < ts.len(),
                state != StateType::End ==> run(
                    ts,
                    scanner.cursor as int,
                    state,
                    self.stack@,
                ) == r0,
                state == StateType::End ==> r0 == Some(scanner.cursor as int),
                state == StateType::End ==> self.stack@.len() == 0,
                forall|q: int|
                    0 <= q < self.stack@.len() ==> #[trigger] self.stack@[q] != StateType::End,
            decreases rem(ts, scanner.cursor as int), state_rank(state), self.stack@.len(),
        {
            if state == StateType::Invalid {
                proof {
                    assert(r0 == run(ts, scanner.cursor as int, StateType::Invalid, self.stack@));
                    assert(r0 is None);
                    if is_valid_document(ts) {
                        assert(ts.subrange(0, ts.len() as int) =~= ts);
                        assert(valid_prefix_to(ts, ts.len() - 1));
                    }
                    if exists|j: int| valid_prefix_to(ts, j) {
                        let j = choose|j: int| valid_prefix_to(ts, j);
                        lemma_complete_prefix(ts, j);
                        assert(false);
                    }
                    if exists|kk: nat| is_valid_document(completed_with(ts, kk)) {
                        let kk = choose|kk: nat| is_valid_document(completed_with(ts, kk));
                        lemma_complete_completed(ts, kk);
                        assert(false);
                    }
                }
                self.stack = Vec::new();
                return Err(ErrorType::UnexpectedToken);
            }

            let ghost pre_cur = scanner.cursor as int;
            let ghost pre_state = state;
            let ghost pre_stack = self.stack@;

            let next_state_result: Option<StateType> = match state {
                StateType::Object => SyntaxAnalyzer::parse_object(&mut scanner),
                StateType::ObjectProperty => SyntaxAnalyzer::parse_object_property(&mut scanner),
                StateType::ObjectPropertyEnd => SyntaxAnalyzer::parse_object_property_end(
                    &mut scanner,
                ),
                StateType::Array => SyntaxAnalyzer::parse_array(&mut scanner),
                StateType::ArrayItem => SyntaxAnalyzer::parse_value(&mut scanner),
                StateType::ArrayItemEnd => SyntaxAnalyzer::parse_array_item_end(&mut scanner),
                _ => {
                    return Err(ErrorType::UnexpectedState);
                },
            };

            proof {
                lemma_step_of(ts, pre_cur, pre_state);
            }

            if next_state_result.is_some() {
                let next_state: StateType = next_state_result.unwrap();
                if next_state == StateType::ObjectProperty {
                    self.stack.push(StateType::ObjectPropertyEnd);
                } else if next_state == StateType::ArrayItem {
                    self.stack.push(StateType::ArrayItemEnd);
                } else {
                    self.stack.push(state);
                }
                proof {
                    assert(self.stack@ == push_for(pre_stack, pre_state, next_state));
                }
                state = next_state;
            } else if self.stack.len() > 0 {
                scanner.advance();
                state = self.stack.pop().unwrap();
            } else {
                state = StateType::End;
            }
        }

        let current = scanner.current().unwrap();
        proof {
            lemma_run_sound(ts, 0, init_state(ts), Seq::empty());
        }
        let ghost (v, j, m) = choose|v: JsonShape, j: int, m: nat|
            w_container(ts, 0, init_state(ts), Seq::empty(), v, j, m);
        proof {
            assert(w_container(ts, 0, init_state(ts), Seq::empty(), v, j, m));
            assert(r0 == Some(j));
            assert(scanner.cursor == j);
            lemma_value_span_last(ts, 0, j, m, v);
        }
        if !scanner.is_at_end() || (current.token_type != TokenType::RightBrace
            && current.token_type != TokenType::RightBracket) {
            proof {
                // The accepted construct's last token is a closer, so only a
                // cursor short of the final token reaches this error.
                assert(current.token_type == ts[j]);
                assert(scanner.cursor < scanner.length - 1);
                assert(j < ts.len() - 1);
                assert(m == 0);
                assert(is_valid_document(ts.subrange(0, j + 1)));
                assert(valid_prefix_to(ts, j) && j < ts.len() - 1);
                if is_valid_document(ts) {
                    assert(ts.subrange(0, ts.len() as int) =~= ts);
                    assert(valid_prefix_to(ts, ts.len() - 1));
                    lemma_complete_prefix(ts, ts.len() - 1);
                    assert(false);
                }
                if exists|kk: nat| is_valid_document(completed_with(ts, kk)) {
                    let kk = choose|kk: nat| is_valid_document(completed_with(ts, kk));
                    lemma_complete_completed(ts, kk);
                    assert(false);
                }
            }
            return Err(ErrorType::TrailingTokens);
        }

        proof {
            assert(j == ts.len() - 1);
            if exists|jp: int| valid_prefix_to(ts, jp) && jp < ts.len() - 1 {
                let jp = choose|jp: int| valid_prefix_to(ts, jp) && jp < ts.len() - 1;
                lemma_complete_prefix(ts, jp);
                assert(false);
            }
            if m == 0 {
                assert(tokens_of(v) == ts.subrange(0, ts.len() as int));
                assert(ts.subrange(0, ts.len() as int) =~= ts);
                assert(is_valid_document(ts));
                lemma_cw_zero(ts);
                assert(is_valid_document(completed_with(ts, 0nat)));
            } else {
                assert(tokens_of(v) == completed_with(ts, m).subrange(0, ts.len() + m as int));
                assert(completed_with(ts, m).subrange(0, ts.len() + m as int) =~= completed_with(
                    ts,
                    m,
                ));
                assert(is_valid_document(completed_with(ts, m)));
            }
        }
        Ok(())
    }

    /// The Object handler, exactly as `h_object` describes it.
    fn parse_object(scanner: &mut TokenScanner) -> (r: Option<StateType>)
        requires
            old(scanner).wf(),
        ensures
            final(scanner).wf(),
            final(scanner).tokens == old(scanner).tokens,
            r == h_object(token_types(old(scanner).tokens@), old(scanner).cursor as int).next,
            final(scanner).cursor as int == h_object(
                token_types(old(scanner).tokens@),
                old(scanner).cursor as int,
            ).cur,
    {
        let current: Token = scanner.current().unwrap();
        if current.token_type != TokenType::LeftBrace {
            return Some(StateType::Invalid);
        }

        match scanner.advance() {
            None => Some(StateType::Invalid),
            Some(next) => match next.token_type {
                TokenType::RightBrace => None,
                TokenType::String => Some(StateType::ObjectProperty),
                _ => Some(StateType::Invalid),
            },
        }
    }

    /// The ObjectProperty handler, exactly as `h_obj_prop` describes it.
    fn parse_object_property(scanner: &mut TokenScanner) -> (r: Option<StateType>)
        requires
            old(scanner).wf(),
        ensures
            final(scanner).wf(),
            final(scanner).tokens == old(scanner).tokens,
            r == h_obj_prop(token_types(old(scanner).tokens@), old(scanner).cursor as int).next,
            final(scanner).cursor as int == h_obj_prop(
                token_types(old(scanner).tokens@),
                old(scanner).cursor as int,
            ).cur,
    {
        let current: Token = scanner.current().unwrap();
        if current.token_type != TokenType::String {
            return Some(StateType::Invalid);
        }

        let colon = match scanner.advance() {
            None => {
                return Some(StateType::Invalid);
            },
            Some(t) => t,
        };
        if colon.token_type != TokenType::Colon {
            return Some(StateType::Invalid);
        }

        match scanner.advance() {
            None => Some(StateType::Invalid),
            Some(_) => SyntaxAnalyzer::parse_value(scanner),
        }
    }

    /// The ObjectPropertyEnd handler, exactly as `h_obj_prop_end` describes
    /// it, including the short-circuit on a comma at the final token.
    fn parse_object_property_end(scanner: &mut TokenScanner) -> (r: Option<StateType>)
        requires
            old(scanner).wf(),
        ensures
            final(scanner).wf(),
            final(scanner).tokens == old(scanner).tokens,
            r == h_obj_prop_end(token_types(old(scanner).tokens@), old(scanner).cursor as int).next,
            final(scanner).cursor as int == h_obj_prop_end(
                token_types(old(scanner).tokens@),
                old(scanner).cursor as int,
            ).cur,
    {
        let current: Token = scanner.current().unwrap();

        if current.token_type == TokenType::Comma {
            if scanner.is_at_end() {
                return Some(StateType::Invalid);
            }
            scanner.advance();
            return Some(StateType::ObjectProperty);
        } else if current.token_type == TokenType::RightBrace {
            return None;
        }

        Some(StateType::Invalid)
    }

    /// The Array handler, exactly as `h_array` describes it.
    fn parse_array(scanner: &mut TokenScanner) -> (r: Option<StateType>)
        requires
            old(scanner).wf(),
        ensures
            final(scanner).wf(),
            final(scanner).tokens == old(scanner).tokens,
            r == h_array(token_types(old(scanner).tokens@), old(scanner).cursor as int).next,
            final(scanner).cursor as int == h_array(
                token_types(old(scanner).tokens@),
                old(scanner).cursor as int,
            ).cur,
    {
        let current: Token = scanner.current().unwrap();
        if current.token_type != TokenType::LeftBracket {
            return Some(StateType::Invalid);
        }

        match scanner.advance() {
            None => Some(StateType::Invalid),
            Some(next) => match next.token_type {
                TokenType::RightBracket => None,
                TokenType::Comma => Some(StateType::Invalid),
                _ => Some(StateType::ArrayItem),
            },
        }
    }

    /// The ArrayItemEnd handler, exactly as `h_arr_item_end` describes it,
    /// including the short-circuit on a comma at the final token.
    fn parse_array_item_end(scanner: &mut TokenScanner) -> (r: Option<StateType>)
        requires
            old(scanner).wf(),
        ensures
            final(scanner).wf(),
            final(scanner).tokens == old(scanner).tokens,
            r == h_arr_item_end(token_types(old(scanner).tokens@), old(scanner).cursor as int).next,
            final(scanner).cursor as int == h_arr_item_end(
                token_types(old(scanner).tokens@),
                old(scanner).cursor as int,
            ).cur,
    {
        let current: Token = scanner.current().unwrap();

        if current.token_type == TokenType::Comma {
            if scanner.is_at_end() {
                return Some(StateType::Invalid);
            }
            scanner.advance();
            return Some(StateType::ArrayItem);
        } else if current.token_type == TokenType::RightBracket {
            return None;
        }

        Some(StateType::Invalid)
    }

    /// The value dispatch, exactly as `h_value` describes it.
    fn parse_value(scanner: &mut TokenScanner) -> (r: Option<StateType>)
        requires
            old(scanner).wf(),
        ensures
            final(scanner).wf(),
            final(scanner).tokens == old(scanner).tokens,
            r == h_value(token_types(old(scanner).tokens@), old(scanner).cursor as int).next,
            final(scanner).cursor as int == h_value(
                token_types(old(scanner).tokens@),
                old(scanner).cursor as int,
            ).cur,
    {
        let current: Token = scanner.current().unwrap();
        if current.token_type == TokenType::LeftBrace {
            return SyntaxAnalyzer::parse_object(scanner);
        }

        if current.token_type == TokenType::LeftBracket {
            return SyntaxAnalyzer::parse_array(scanner);
        }

        if current.token_type.is_literal() {
            return None;
        }

        Some(StateType::Invalid)
    }

}

// ------------------------------------------------------------------
// Completeness: the automaton accepts every well-formed construct.
// ------------------------------------------------------------------

/// All shapes in a sequence are well-formed.
spec fn shapes_wf(vs: Seq<JsonShape>) -> bool {
    forall|k: int| 0 <= k < vs.len() ==> (#[trigger] vs[k]).wf()
}

/// A well-formed value's first token tells its shape apart: `{` for objects,
/// `[` for arrays, a value-bearing kind for literals.
proof fn lemma_value_first(v: JsonShape)
    requires
        v.wf(),
    ensures
        tokens_of(v).len() >= 1,
        (v is Object <==> tokens_of(v)[0] == TokenType::LeftBrace),
        (v is Array <==> tokens_of(v)[0] == TokenType::LeftBracket),
        (v is Literal <==> tokens_of(v)[0].spec_is_literal()),
{
    lemma_tokens_of_shape(v);
}

/// A non-empty member list's spelling opens with its first key and colon and
/// has at least three tokens.
proof fn lemma_members_first(ms: Seq<JsonShape>)
    requires
        ms.len() >= 1,
    ensures
        members_tokens(ms).len() >= 3,
        members_tokens(ms)[0] == TokenType::String,
        members_tokens(ms)[1] == TokenType::Colon,
{
    reveal_with_fuel(members_tokens, 2);
    reveal_with_fuel(member_tokens, 2);
    lemma_tokens_of_shape(ms[0]);
}

/// A non-empty item list's spelling opens with its first item's first token.
proof fn lemma_items_first(items: Seq<JsonShape>)
    requires
        items.len() >= 1,
    ensures
        items_tokens(items).len() >= 1,
        items_tokens(items)[0] == tokens_of(items[0])[0],
{
    reveal_with_fuel(items_tokens, 2);
    lemma_tokens_of_shape(items[0]);
}

/// If a concatenation equals a stretch of the text, each part equals its own
/// stretch.
proof fn lemma_seq_eq_parts(
    ts: Seq<TokenType>,
    i: int,
    j: int,
    a: Seq<TokenType>,
    b: Seq<TokenType>,
)
    requires
        0 <= i <= j <= ts.len(),
        a + b == ts.subrange(i, j),
    ensures
        a.len() + b.len() == j - i,
        a == ts.subrange(i, i + a.len()),
        b == ts.subrange(i + a.len(), j),
{
    assert((a + b).len() == j - i);
    assert forall|q: int| 0 <= q < a.len() implies a[q] == ts[i + q] by {
        assert((a + b)[q] == a[q]);
        assert(ts.subrange(i, j)[q] == ts[i + q]);
    }
    assert(a =~= ts.subrange(i, i + a.len()));
    assert forall|q: int| 0 <= q < b.len() implies b[q] == ts[i + a.len() + q] by {
        assert((a + b)[a.len() + q] == b[q]);
        assert(ts.subrange(i, j)[a.len() + q] == ts[i + a.len() + q]);
    }
    assert(b =~= ts.subrange(i + a.len(), j));
}

/// The text position where the automaton actually stands when the abstract
/// position is `p`: the cursor cannot move past the final token.
spec fn real_pos(ts: Seq<TokenType>, p: int) -> int {
    if p < ts.len() {
        p
    } else {
        ts.len() - 1
    }
}

/// When tokens are appended, they are copies of the final token, which must
/// be a closer for any completion to matter.
spec fn end_closer_ok(ts: Seq<TokenType>, k: nat) -> bool {
    k == 0 || ts.last() == TokenType::RightBrace || ts.last() == TokenType::RightBracket
}

/// Accepting a member list: from the ObjectProperty state at its first key,
/// with its end continuation pushed, the run proceeds exactly to the closing
/// brace at `j` of the completed text and resumes there (at the final token,
/// if the brace is one of the appended copies).
proof fn c_members(
    ts: Seq<TokenType>,
    k: nat,
    ms: Seq<JsonShape>,
    i: int,
    j: int,
    stk: Seq<StateType>,
)
    requires
        ts.len() >= 1,
        end_closer_ok(ts, k),
        0 <= i <= j < ts.len() + k,
        i < ts.len(),
        ms.len() >= 1,
        shapes_wf(ms),
        members_tokens(ms) == completed_with(ts, k).subrange(i, j),
        completed_with(ts, k)[j] == TokenType::RightBrace,
    ensures
        run(ts, i, StateType::ObjectProperty, stk.push(StateType::ObjectPropertyEnd))
            == val_continue(ts, real_pos(ts, j), stk),
    decreases ms, 0int,
{
    reveal_with_fuel(members_tokens, 2);
    reveal_with_fuel(member_tokens, 2);
    let c = completed_with(ts, k);
    lemma_cw_index(ts, k);
    let v0 = ms[0];
    assert(v0.wf());
    lemma_tokens_of_shape(v0);
    lemma_value_first(v0);
    lemma_members_first(ms);
    let lv = tokens_of(v0).len() as int;
    let rest = ms.drop_first();
    let e = i + 1 + lv;

    // Split the members' spelling around the first member.
    if ms.len() == 1 {
        assert(members_tokens(ms) == member_tokens(v0));
        assert(member_tokens(v0) == seq![TokenType::String, TokenType::Colon] + tokens_of(v0));
        lemma_seq_eq_parts(c, i, j, seq![TokenType::String, TokenType::Colon], tokens_of(v0));
        assert(tokens_of(v0) == c.subrange(i + 2, e + 1));
        assert(e + 1 == j);
    } else {
        assert(members_tokens(ms) == member_tokens(v0) + seq![TokenType::Comma]
            + members_tokens(rest));
        assert(rest.len() >= 1);
        lemma_members_first(rest);
        lemma_seq_eq_parts(
            c,
            i,
            j,
            member_tokens(v0) + seq![TokenType::Comma],
            members_tokens(rest),
        );
        assert(members_tokens(rest) == c.subrange(e + 2, j));
        lemma_seq_eq_parts(c, i, e + 2, member_tokens(v0), seq![TokenType::Comma]);
        assert(seq![TokenType::Comma] == c.subrange(e + 1, e + 2));
        assert(c[e + 1] == c.subrange(e + 1, e + 2)[0]);
        assert(c[e + 1] == TokenType::Comma);
        assert(member_tokens(v0) == seq![TokenType::String, TokenType::Colon] + tokens_of(v0));
        lemma_seq_eq_parts(c, i, e + 1, seq![TokenType::String, TokenType::Colon], tokens_of(v0));
        assert(tokens_of(v0) == c.subrange(i + 2, e + 1));
        assert(shapes_wf(rest));
    }
    // The key, the colon, and the value's first token are real: appended
    // tokens are closers, and these are not.
    assert(c[i] == TokenType::String && ts[i] == TokenType::String);
    assert(c[i + 1] == TokenType::Colon);
    assert(i + 1 < ts.len());
    assert(ts[i + 1] == TokenType::Colon);
    assert(c[i + 2] == tokens_of(v0)[0]);
    assert(c[i + 2] != TokenType::RightBrace && c[i + 2] != TokenType::RightBracket);
    assert(i + 2 < ts.len());

    c_value(ts, k, v0, i + 2, stk.push(StateType::ObjectPropertyEnd), StateType::ObjectProperty, i);
    assert(stk.push(StateType::ObjectPropertyEnd).drop_last() =~= stk);
    assert(stk.push(StateType::ObjectPropertyEnd).last() == StateType::ObjectPropertyEnd);
    assert(run(ts, i, StateType::ObjectProperty, stk.push(StateType::ObjectPropertyEnd)) == run(
        ts,
        real_pos(ts, e + 1),
        StateType::ObjectPropertyEnd,
        stk,
    ));

    c_ope_continue(ts, k, rest, e, j, stk);
}

/// Accepting an item list: from the ArrayItem state at its first item, with
/// its end continuation pushed, the run proceeds exactly to the closing
/// bracket at `j` of the completed text and resumes there.
proof fn c_items(
    ts: Seq<TokenType>,
    k: nat,
    items: Seq<JsonShape>,
    i: int,
    j: int,
    stk: Seq<StateType>,
)
    requires
        ts.len() >= 1,
        end_closer_ok(ts, k),
        0 <= i <= j < ts.len() + k,
        i < ts.len(),
        items.len() >= 1,
        shapes_wf(items),
        items_tokens(items) == completed_with(ts, k).subrange(i, j),
        completed_with(ts, k)[j] == TokenType::RightBracket,
    ensures
        run(ts, i, StateType::ArrayItem, stk.push(StateType::ArrayItemEnd)) == val_continue(
            ts,
            real_pos(ts, j),
            stk,
        ),
    decreases items, 0int,
{
    reveal_with_fuel(items_tokens, 2);
    let c = completed_with(ts, k);
    lemma_cw_index(ts, k);
    let v0 = items[0];
    assert(v0.wf());
    lemma_tokens_of_shape(v0);
    let lv = tokens_of(v0).len() as int;
    let rest = items.drop_first();
    let e = i + lv - 1;

    if items.len() == 1 {
        assert(items_tokens(items) == tokens_of(v0));
        assert(tokens_of(v0) == c.subrange(i, e + 1));
        assert(e + 1 == j);
    } else {
        assert(items_tokens(items) == tokens_of(v0) + seq![TokenType::Comma] + items_tokens(
            rest,
        ));
        assert(rest.len() >= 1);
        lemma_items_first(rest);
        lemma_seq_eq_parts(c, i, j, tokens_of(v0) + seq![TokenType::Comma], items_tokens(rest));
        assert(items_tokens(rest) == c.subrange(e + 2, j));
        lemma_seq_eq_parts(c, i, e + 2, tokens_of(v0), seq![TokenType::Comma]);
        assert(tokens_of(v0) == c.subrange(i, e + 1));
        assert(seq![TokenType::Comma] == c.subrange(e + 1, e + 2));
        assert(c[e + 1] == c.subrange(e + 1, e + 2)[0]);
        assert(c[e + 1] == TokenType::Comma);
        assert(shapes_wf(rest));
    }
    assert(i <= e);

    c_value(ts, k, v0, i, stk.push(StateType::ArrayItemEnd), StateType::ArrayItem, i);
    assert(stk.push(StateType::ArrayItemEnd).drop_last() =~= stk);
    assert(stk.push(StateType::ArrayItemEnd).last() == StateType::ArrayItemEnd);
    assert(run(ts, i, StateType::ArrayItem, stk.push(StateType::ArrayItemEnd)) == run(
        ts,
        real_pos(ts, e + 1),
        StateType::ArrayItemEnd,
        stk,
    ));

    c_aie_continue(ts, k, rest, e, j, stk);
}

/// Accepting one value whose spelling occupies `[i, i + |tokens_of(v)|)` of
/// the completed text: from a state whose handler dispatches to the value at
/// `i` (the ObjectProperty state two tokens earlier, or the ArrayItem state at
/// `i` itself), the run lands just past the value's last token, clamped to
/// the final real token, in the topmost continuation.
proof fn c_value(
    ts: Seq<TokenType>,
    k: nat,
    v: JsonShape,
    i: int,
    stk: Seq<StateType>,
    state: StateType,
    si: int,
)
    requires
        ts.len() >= 1,
        end_closer_ok(ts, k),
        0 <= si <= i < ts.len(),
        i + tokens_of(v).len() <= ts.len() + k,
        v.wf(),
        tokens_of(v) == completed_with(ts, k).subrange(i, i + tokens_of(v).len()),
        stk.len() >= 1,
        state == StateType::ObjectProperty || state == StateType::ArrayItem,
        state == StateType::ObjectProperty ==> (si + 2 == i && ts[si] == TokenType::String
            && ts[si + 1] == TokenType::Colon),
        state == StateType::ArrayItem ==> si == i,
    ensures
        run(ts, si, state, stk) == run(
            ts,
            real_pos(ts, i + tokens_of(v).len()),
            stk.last(),
            stk.drop_last(),
        ),
    decreases v, 1int,
{
    reveal_with_fuel(tokens_of, 2);
    let c = completed_with(ts, k);
    lemma_cw_index(ts, k);
    let len = ts.len() as int;
    let lv = tokens_of(v).len() as int;
    let e = i + lv - 1;
    lemma_tokens_of_shape(v);
    lemma_value_first(v);
    assert(tokens_of(v)[0] == c[i]);
    assert(c[i] == ts[i]);
    match v {
        JsonShape::Literal(tt) => {
            assert(ts[i] == tt);
            assert(adv(ts, i) == real_pos(ts, i + 1));
        },
        JsonShape::Object(ms) => {
            assert(ts[i] == TokenType::LeftBrace);
            assert(tokens_of(v) == seq![TokenType::LeftBrace] + members_tokens(ms) + seq![
                TokenType::RightBrace,
            ]);
            lemma_seq_eq_parts(
                c,
                i,
                i + lv,
                seq![TokenType::LeftBrace] + members_tokens(ms),
                seq![TokenType::RightBrace],
            );
            assert(seq![TokenType::RightBrace] == c.subrange(e, e + 1));
            assert(c[e] == c.subrange(e, e + 1)[0]);
            assert(c[e] == TokenType::RightBrace);
            lemma_seq_eq_parts(c, i, e, seq![TokenType::LeftBrace], members_tokens(ms));
            if ms.len() == 0 {
                assert(lv == 2);
                assert(c[i + 1] == TokenType::RightBrace);
                // The empty object's closing brace is a real token: were it
                // appended, the final token would be the opening brace.
                assert(i + 1 < len) by {
                    if i + 1 >= len {
                        assert(ts.last() == ts[i]);
                    }
                }
                assert(ts[i + 1] == TokenType::RightBrace);
                assert(adv(ts, i + 1) == real_pos(ts, i + 2));
            } else {
                lemma_members_first(ms);
                assert(members_tokens(ms) == c.subrange(i + 1, e));
                assert(c[i + 1] == TokenType::String);
                assert(i + 1 < len);
                assert(ts[i + 1] == TokenType::String);
                assert(shapes_wf(ms));
                c_members(ts, k, ms, i + 1, e, stk);
                assert(adv(ts, real_pos(ts, e)) == real_pos(ts, i + lv));
            }
        },
        JsonShape::Array(items) => {
            assert(ts[i] == TokenType::LeftBracket);
            assert(tokens_of(v) == seq![TokenType::LeftBracket] + items_tokens(items) + seq![
                TokenType::RightBracket,
            ]);
            lemma_seq_eq_parts(
                c,
                i,
                i + lv,
                seq![TokenType::LeftBracket] + items_tokens(items),
                seq![TokenType::RightBracket],
            );
            assert(seq![TokenType::RightBracket] == c.subrange(e, e + 1));
            assert(c[e] == c.subrange(e, e + 1)[0]);
            assert(c[e] == TokenType::RightBracket);
            lemma_seq_eq_parts(c, i, e, seq![TokenType::LeftBracket], items_tokens(items));
            if items.len() == 0 {
                assert(lv == 2);
                assert(c[i + 1] == TokenType::RightBracket);
                // As for the empty object, the closing bracket is real.
                assert(i + 1 < len) by {
                    if i + 1 >= len {
                        assert(ts.last() == ts[i]);
                    }
                }
                assert(ts[i + 1] == TokenType::RightBracket);
                assert(adv(ts, i + 1) == real_pos(ts, i + 2));
            } else {
                lemma_items_first(items);
                assert(items_tokens(items) == c.subrange(i + 1, e));
                lemma_value_first(items[0]);
                assert(c[i + 1] == tokens_of(items[0])[0]);
                assert(c[i + 1] != TokenType::RightBracket && c[i + 1] != TokenType::Comma);
                assert(i + 1 < len);
                assert(ts[i + 1] == tokens_of(items[0])[0]);
                assert(shapes_wf(items));
                c_items(ts, k, items, i + 1, e, stk);
                assert(adv(ts, real_pos(ts, e)) == real_pos(ts, i + lv));
            }
        },
    }
}

/// Resuming after a member whose value's spelling ended at position `e` of
/// the completed text: a comma continues with the remaining members, the
/// closing brace at `j`, real or standing at the final token, completes the
/// object.
proof fn c_ope_continue(
    ts: Seq<TokenType>,
    k: nat,
    rest: Seq<JsonShape>,
    e: int,
    j: int,
    stk: Seq<StateType>,
)
    requires
        ts.len() >= 1,
        end_closer_ok(ts, k),
        0 <= e,
        e + 1 <= j < ts.len() + k,
        completed_with(ts, k)[j] == TokenType::RightBrace,
        rest.len() == 0 ==> e + 1 == j,
        rest.len() >= 1 ==> (completed_with(ts, k)[e + 1] == TokenType::Comma && shapes_wf(rest)
            && members_tokens(rest) == completed_with(ts, k).subrange(e + 2, j)),
    ensures
        run(ts, real_pos(ts, e + 1), StateType::ObjectPropertyEnd, stk) == val_continue(
            ts,
            real_pos(ts, j),
            stk,
        ),
    decreases rest, 1int,
{
    let c = completed_with(ts, k);
    lemma_cw_index(ts, k);
    let len = ts.len() as int;
    if rest.len() == 0 {
        // The run stands on the brace if it is real, or on the final token,
        // which then is a brace itself.
        assert(ts[real_pos(ts, j)] == TokenType::RightBrace);
    } else {
        lemma_members_first(rest);
        // The comma and the next member's key are real tokens.
        assert(e + 1 < len);
        assert(ts[e + 1] == TokenType::Comma);
        assert(c[e + 2] == members_tokens(rest)[0]);
        assert(c[e + 2] == TokenType::String);
        assert(e + 2 < len);
        c_members(ts, k, rest, e + 2, j, stk);
    }
}

/// Resuming after an item whose value's spelling ended at position `e` of the
/// completed text, as `c_ope_continue` does for members.
proof fn c_aie_continue(
    ts: Seq<TokenType>,
    k: nat,
    rest: Seq<JsonShape>,
    e: int,
    j: int,
    stk: Seq<StateType>,
)
    requires
        ts.len() >= 1,
        end_closer_ok(ts, k),
        0 <= e,
        e + 1 <= j < ts.len() + k,
        completed_with(ts, k)[j] == TokenType::RightBracket,
        rest.len() == 0 ==> e + 1 == j,
        rest.len() >= 1 ==> (completed_with(ts, k)[e + 1] == TokenType::Comma && shapes_wf(rest)
            && items_tokens(rest) == completed_with(ts, k).subrange(e + 2, j)),
    ensures
        run(ts, real_pos(ts, e + 1), StateType::ArrayItemEnd, stk) == val_continue(
            ts,
            real_pos(ts, j),
            stk,
        ),
    decreases rest, 1int,
{
    let c = completed_with(ts, k);
    lemma_cw_index(ts, k);
    let len = ts.len() as int;
    if rest.len() == 0 {
        assert(ts[real_pos(ts, j)] == TokenType::RightBracket);
    } else {
        lemma_items_first(rest);
        lemma_tokens_of_shape(rest[0]);
        lemma_value_first(rest[0]);
        assert(e + 1 < len);
        assert(ts[e + 1] == TokenType::Comma);
        assert(c[e + 2] == items_tokens(rest)[0]);
        assert(c[e + 2] == tokens_of(rest[0])[0]);
        assert(c[e + 2] != TokenType::RightBrace && c[e + 2] != TokenType::RightBracket);
        assert(e + 2 < len);
        c_items(ts, k, rest, e + 2, j, stk);
    }
}

/// A well-formed document occupying the completed text up to position `ee`
/// (exclusive) is accepted, the cursor resting on its last real token.
proof fn lemma_complete_top(ts: Seq<TokenType>, k: nat, ee: int)
    requires
        ts.len() >= 1,
        2 <= ee <= ts.len() + k,
        k > 0 ==> ee == ts.len() + k,
        is_valid_document(completed_with(ts, k).subrange(0, ee)),
    ensures
        run(ts, 0, init_state(ts), Seq::empty()) == Some(real_pos(ts, ee - 1)),
        ts[0] == TokenType::LeftBrace || ts[0] == TokenType::LeftBracket,
    decreases 0int,
{
    let c = completed_with(ts, k);
    lemma_cw_index(ts, k);
    let len = ts.len() as int;
    let p = c.subrange(0, ee);
    let v = choose|v: JsonShape| v.is_container() && v.wf() && tokens_of(v) == p;
    lemma_tokens_of_shape(v);
    lemma_value_first(v);
    assert(tokens_of(v) == c.subrange(0, ee));
    assert(c[0] == tokens_of(v)[0]);
    assert(ts[0] == c[0]);
    assert(c[ee - 1] == tokens_of(v)[ee - 1]);
    assert(c[ee - 1] == TokenType::RightBrace || c[ee - 1] == TokenType::RightBracket);
    // Any appended tokens are copies of the final token, which equals the
    // document's last token, a closer.
    assert(end_closer_ok(ts, k)) by {
        if k > 0 {
            assert(c[ee - 1] == ts.last());
        }
    }
    match v {
        JsonShape::Object(ms) => {
            assert(init_state(ts) == StateType::Object);
            assert(tokens_of(v) == seq![TokenType::LeftBrace] + members_tokens(ms) + seq![
                TokenType::RightBrace,
            ]);
            lemma_seq_eq_parts(
                c,
                0,
                ee,
                seq![TokenType::LeftBrace] + members_tokens(ms),
                seq![TokenType::RightBrace],
            );
            lemma_seq_eq_parts(c, 0, ee - 1, seq![TokenType::LeftBrace], members_tokens(ms));
            assert(seq![TokenType::RightBrace] == c.subrange(ee - 1, ee));
            assert(c[ee - 1] == c.subrange(ee - 1, ee)[0]);
            assert(c[ee - 1] == TokenType::RightBrace);
            if ms.len() == 0 {
                assert(ee == 2);
                // With nothing between the braces the closer is real: were it
                // appended, the final token would be the opening brace.
                assert(1 < len) by {
                    if 1 >= len {
                        assert(ts.last() == ts[0]);
                    }
                }
                assert(ts[1] == TokenType::RightBrace);
            } else {
                lemma_members_first(ms);
                assert(members_tokens(ms) == c.subrange(1, ee - 1));
                assert(c[1] == TokenType::String);
                assert(1 < len);
                assert(ts[1] == TokenType::String);
                assert(shapes_wf(ms));
                c_members(ts, k, ms, 1, ee - 1, Seq::empty());
                assert(Seq::<StateType>::empty().push(StateType::ObjectPropertyEnd) == push_for(
                    Seq::<StateType>::empty(),
                    StateType::Object,
                    StateType::ObjectProperty,
                ));
            }
        },
        JsonShape::Array(items) => {
            assert(init_state(ts) == StateType::Array);
            assert(tokens_of(v) == seq![TokenType::LeftBracket] + items_tokens(items) + seq![
                TokenType::RightBracket,
            ]);
            lemma_seq_eq_parts(
                c,
                0,
                ee,
                seq![TokenType::LeftBracket] + items_tokens(items),
                seq![TokenType::RightBracket],
            );
            lemma_seq_eq_parts(c, 0, ee - 1, seq![TokenType::LeftBracket], items_tokens(items));
            assert(seq![TokenType::RightBracket] == c.subrange(ee - 1, ee));
            assert(c[ee - 1] == c.subrange(ee - 1, ee)[0]);
            assert(c[ee - 1] == TokenType::RightBracket);
            if items.len() == 0 {
                assert(ee == 2);
                assert(1 < len) by {
                    if 1 >= len {
                        assert(ts.last() == ts[0]);
                    }
                }
                assert(ts[1] == TokenType::RightBracket);
            } else {
                lemma_items_first(items);
                assert(items_tokens(items) == c.subrange(1, ee - 1));
                lemma_value_first(items[0]);
                assert(c[1] == tokens_of(items[0])[0]);
                assert(c[1] != TokenType::RightBracket && c[1] != TokenType::Comma);
                assert(c[1] != TokenType::RightBrace);
                assert(1 < len);
                assert(ts[1] == c[1]);
                assert(shapes_wf(items));
                c_items(ts, k, items, 1, ee - 1, Seq::empty());
                assert(Seq::<StateType>::empty().push(StateType::ArrayItemEnd) == push_for(
                    Seq::<StateType>::empty(),
                    StateType::Array,
                    StateType::ArrayItem,
                ));
            }
        },
        JsonShape::Literal(tt) => {
            assert(false);
        },
    }
}

/// A well-formed document occupying the tokens up to index `j` is accepted
/// with the cursor resting exactly on `j`.
proof fn lemma_complete_prefix(ts: Seq<TokenType>, j: int)
    requires
        valid_prefix_to(ts, j),
    ensures
        run(ts, 0, init_state(ts), Seq::empty()) == Some(j),
        ts[0] == TokenType::LeftBrace || ts[0] == TokenType::LeftBracket,
        ts[j] == TokenType::RightBrace || ts[j] == TokenType::RightBracket,
{
    lemma_cw_zero(ts);
    lemma_document_shape(ts.subrange(0, j + 1));
    assert(completed_with(ts, 0).subrange(0, j + 1) == ts.subrange(0, j + 1));
    lemma_complete_top(ts, 0, j + 1);
    assert(real_pos(ts, j) == j);
    assert(ts[j] == ts.subrange(0, j + 1)[j]);
}

/// A text whose completion by copies of its final token is a well-formed
/// document is accepted with the cursor resting on the final token.
proof fn lemma_complete_completed(ts: Seq<TokenType>, k: nat)
    requires
        ts.len() >= 1,
        is_valid_document(completed_with(ts, k)),
    ensures
        run(ts, 0, init_state(ts), Seq::empty()) == Some(ts.len() - 1),
        ts[0] == TokenType::LeftBrace || ts[0] == TokenType::LeftBracket,
{
    lemma_cw_index(ts, k);
    lemma_document_shape(completed_with(ts, k));
    assert(completed_with(ts, k).subrange(0, ts.len() + k as int) =~= completed_with(ts, k));
    lemma_complete_top(ts, k, ts.len() + k as int);
    assert(real_pos(ts, ts.len() + k as int - 1) == ts.len() - 1);
}

// ------------------------------------------------------------------
// Soundness: what the automaton accepts is a (possibly end-truncated)
// well-formed construct.
// ------------------------------------------------------------------

/// Value `v` occupies the text from `i` to `j` inclusive; with `m >= 1` the
/// run reached the final token and `v`'s spelling needs `m` more copies of
/// the final token than the text holds.
spec fn value_span(ts: Seq<TokenType>, i: int, j: int, m: nat, v: JsonShape) -> bool {
    &&& 0 <= i <= j < ts.len()
    &&& v.wf()
    &&& if m == 0 {
        tokens_of(v) == ts.subrange(i, j + 1)
    } else {
        j == ts.len() - 1 && tokens_of(v) == completed_with(ts, m).subrange(i, ts.len() + m as int)
    }
}

/// A member list occupying the text from `i` up to the closing brace at `j`;
/// with `m >= 1` the brace at `j` is the text's final token standing in for
/// `m` missing closers, `m - 1` of them inside the members themselves.
spec fn members_span(ts: Seq<TokenType>, i: int, j: int, m: nat, ms: Seq<JsonShape>) -> bool {
    &&& ms.len() >= 1
    &&& shapes_wf(ms)
    &&& 0 <= i <= j < ts.len()
    &&& ts[j] == TokenType::RightBrace
    &&& if m == 0 {
        members_tokens(ms) == ts.subrange(i, j)
    } else {
        j == ts.len() - 1 && members_tokens(ms) == completed_with(ts, (m - 1) as nat).subrange(
            i,
            ts.len() + (m - 1) as int,
        )
    }
}

/// An item list occupying the text from `i` up to the closing bracket at `j`,
/// with the same end-of-text allowance as `members_span`.
spec fn items_span(ts: Seq<TokenType>, i: int, j: int, m: nat, items: Seq<JsonShape>) -> bool {
    &&& items.len() >= 1
    &&& shapes_wf(items)
    &&& 0 <= i <= j < ts.len()
    &&& ts[j] == TokenType::RightBracket
    &&& if m == 0 {
        items_tokens(items) == ts.subrange(i, j)
    } else {
        j == ts.len() - 1 && items_tokens(items) == completed_with(ts, (m - 1) as nat).subrange(
            i,
            ts.len() + (m - 1) as int,
        )
    }
}

spec fn w_container(
    ts: Seq<TokenType>,
    i: int,
    state: StateType,
    stk: Seq<StateType>,
    v: JsonShape,
    j: int,
    m: nat,
) -> bool {
    &&& value_span(ts, i, j, m, v)
    &&& (state == StateType::Object ==> v is Object)
    &&& (state == StateType::Array ==> v is Array)
    &&& run(ts, i, state, stk) == val_continue(ts, j, stk)
}

spec fn w_members(
    ts: Seq<TokenType>,
    i: int,
    stk: Seq<StateType>,
    ms: Seq<JsonShape>,
    j: int,
    m: nat,
) -> bool {
    &&& members_span(ts, i, j, m, ms)
    &&& run(ts, i, StateType::ObjectProperty, stk) == val_continue(ts, j, stk.drop_last())
}

spec fn w_items(
    ts: Seq<TokenType>,
    i: int,
    stk: Seq<StateType>,
    items: Seq<JsonShape>,
    j: int,
    m: nat,
) -> bool {
    &&& items_span(ts, i, j, m, items)
    &&& run(ts, i, StateType::ArrayItem, stk) == val_continue(ts, j, stk.drop_last())
}

spec fn w_ope(
    ts: Seq<TokenType>,
    i: int,
    stk: Seq<StateType>,
    ms: Seq<JsonShape>,
    j: int,
    m: nat,
) -> bool {
    &&& members_span(ts, i + 1, j, m, ms)
    &&& run(ts, i, StateType::ObjectPropertyEnd, stk) == val_continue(ts, j, stk)
}

spec fn w_aie(
    ts: Seq<TokenType>,
    i: int,
    stk: Seq<StateType>,
    items: Seq<JsonShape>,
    j: int,
    m: nat,
) -> bool {
    &&& items_span(ts, i + 1, j, m, items)
    &&& run(ts, i, StateType::ArrayItemEnd, stk) == val_continue(ts, j, stk)
}

/// What an accepting run from a configuration says about the text.
spec fn sound_post(ts: Seq<TokenType>, i: int, state: StateType, stk: Seq<StateType>) -> bool {
    match state {
        StateType::Object => exists|v: JsonShape, j: int, m: nat|
            w_container(ts, i, state, stk, v, j, m),
        StateType::Array => exists|v: JsonShape, j: int, m: nat|
            w_container(ts, i, state, stk, v, j, m),
        StateType::ObjectProperty => exists|ms: Seq<JsonShape>, j: int, m: nat|
            w_members(ts, i, stk, ms, j, m),
        StateType::ArrayItem => exists|items: Seq<JsonShape>, j: int, m: nat|
            w_items(ts, i, stk, items, j, m),
        StateType::ObjectPropertyEnd => (ts[i] == TokenType::RightBrace && run(
            ts,
            i,
            state,
            stk,
        ) == val_continue(ts, i, stk)) || (ts[i] == TokenType::Comma && exists|
            ms: Seq<JsonShape>,
            j: int,
            m: nat,
        | w_ope(ts, i, stk, ms, j, m)),
        StateType::ArrayItemEnd => (ts[i] == TokenType::RightBracket && run(
            ts,
            i,
            state,
            stk,
        ) == val_continue(ts, i, stk)) || (ts[i] == TokenType::Comma && exists|
            items: Seq<JsonShape>,
            j: int,
            m: nat,
        | w_aie(ts, i, stk, items, j, m)),
        _ => true,
    }
}

/// If a concatenation's parts each equal a stretch of a text, the whole
/// equals the combined stretch.
proof fn lemma_seq_join(
    c: Seq<TokenType>,
    i: int,
    k: int,
    j: int,
    a: Seq<TokenType>,
    b: Seq<TokenType>,
)
    requires
        0 <= i <= k <= j <= c.len(),
        a == c.subrange(i, k),
        b == c.subrange(k, j),
    ensures
        a + b == c.subrange(i, j),
{
    assert(a + b =~= c.subrange(i, j));
}

/// Completing with no copies changes nothing.
proof fn lemma_cw_zero(ts: Seq<TokenType>)
    ensures
        completed_with(ts, 0) == ts,
{
    assert(completed_with(ts, 0) =~= ts);
}

/// Inside the text, a completed sequence holds the text's own tokens; past
/// it, copies of the final token.
proof fn lemma_cw_index(ts: Seq<TokenType>, m: nat)
    ensures
        completed_with(ts, m).len() == ts.len() + m as int,
        forall|q: int| 0 <= q < ts.len() ==> completed_with(ts, m)[q] == ts[q],
        forall|q: int|
            ts.len() <= q < ts.len() + m ==> completed_with(ts, m)[q] == ts.last(),
{
}

/// Two completions agree on any stretch they both cover.
proof fn lemma_cw_agree(ts: Seq<TokenType>, m1: nat, m2: nat, x: int, y: int)
    requires
        0 <= x <= y <= ts.len() + m1,
        m1 <= m2,
    ensures
        completed_with(ts, m1).subrange(x, y) == completed_with(ts, m2).subrange(x, y),
{
    lemma_cw_index(ts, m1);
    lemma_cw_index(ts, m2);
    assert(completed_with(ts, m1).subrange(x, y) =~= completed_with(ts, m2).subrange(x, y));
}

/// A text's stretch is also the completion's stretch.
proof fn lemma_cw_sub(ts: Seq<TokenType>, m: nat, x: int, y: int)
    requires
        0 <= x <= y <= ts.len(),
    ensures
        ts.subrange(x, y) == completed_with(ts, m).subrange(x, y),
{
    lemma_cw_index(ts, m);
    assert(ts.subrange(x, y) =~= completed_with(ts, m).subrange(x, y));
}

/// Wrap a member list as an object value: `{` at `i`, the members, and the
/// closing brace at `j` (possibly the shared final token).
proof fn lemma_wrap_object(ts: Seq<TokenType>, i: int, j: int, m: nat, ms: Seq<JsonShape>)
    requires
        0 <= i,
        i + 1 <= j,
        ts[i] == TokenType::LeftBrace,
        members_span(ts, i + 1, j, m, ms),
    ensures
        value_span(ts, i, j, m, JsonShape::Object(ms)),
    decreases 0int,
{
    let v = JsonShape::Object(ms);
    assert(v.wf());
    assert(tokens_of(v) == seq![TokenType::LeftBrace] + members_tokens(ms) + seq![
        TokenType::RightBrace,
    ]);
    if m == 0 {
        assert(seq![TokenType::LeftBrace] =~= ts.subrange(i, i + 1));
        assert(seq![TokenType::RightBrace] =~= ts.subrange(j, j + 1));
        lemma_seq_join(ts, i, i + 1, j, seq![TokenType::LeftBrace], members_tokens(ms));
        lemma_seq_join(
            ts,
            i,
            j,
            j + 1,
            seq![TokenType::LeftBrace] + members_tokens(ms),
            seq![TokenType::RightBrace],
        );
    } else {
        let c = completed_with(ts, m);
        lemma_cw_index(ts, m);
        lemma_cw_agree(ts, (m - 1) as nat, m, i + 1, ts.len() + (m - 1) as int);
        assert(members_tokens(ms) == c.subrange(i + 1, ts.len() + (m - 1) as int));
        assert(seq![TokenType::LeftBrace] =~= c.subrange(i, i + 1));
        assert(ts.last() == ts[j]);
        assert(c[ts.len() + (m - 1) as int] == TokenType::RightBrace);
        assert(seq![TokenType::RightBrace] =~= c.subrange(ts.len() + (m - 1) as int, ts.len() + m as int));
        lemma_seq_join(
            c,
            i,
            i + 1,
            ts.len() + (m - 1) as int,
            seq![TokenType::LeftBrace],
            members_tokens(ms),
        );
        lemma_seq_join(
            c,
            i,
            ts.len() + (m - 1) as int,
            ts.len() + m as int,
            seq![TokenType::LeftBrace] + members_tokens(ms),
            seq![TokenType::RightBrace],
        );
        assert(tokens_of(v) == c.subrange(i, ts.len() + m as int));
    }
}

/// Wrap an item list as an array value, as `lemma_wrap_object` does for
/// objects.
proof fn lemma_wrap_array(ts: Seq<TokenType>, i: int, j: int, m: nat, items: Seq<JsonShape>)
    requires
        0 <= i,
        i + 1 <= j,
        ts[i] == TokenType::LeftBracket,
        items_span(ts, i + 1, j, m, items),
    ensures
        value_span(ts, i, j, m, JsonShape::Array(items)),
    decreases 0int,
{
    let v = JsonShape::Array(items);
    assert(v.wf());
    assert(tokens_of(v) == seq![TokenType::LeftBracket] + items_tokens(items) + seq![
        TokenType::RightBracket,
    ]);
    if m == 0 {
        assert(seq![TokenType::LeftBracket] =~= ts.subrange(i, i + 1));
        assert(seq![TokenType::RightBracket] =~= ts.subrange(j, j + 1));
        lemma_seq_join(ts, i, i + 1, j, seq![TokenType::LeftBracket], items_tokens(items));
        lemma_seq_join(
            ts,
            i,
            j,
            j + 1,
            seq![TokenType::LeftBracket] + items_tokens(items),
            seq![TokenType::RightBracket],
        );
    } else {
        let c = completed_with(ts, m);
        lemma_cw_index(ts, m);
        lemma_cw_agree(ts, (m - 1) as nat, m, i + 1, ts.len() + (m - 1) as int);
        assert(items_tokens(items) == c.subrange(i + 1, ts.len() + (m - 1) as int));
        assert(seq![TokenType::LeftBracket] =~= c.subrange(i, i + 1));
        assert(ts.last() == ts[j]);
        assert(c[ts.len() + (m - 1) as int] == TokenType::RightBracket);
        assert(seq![TokenType::RightBracket] =~= c.subrange(ts.len() + (m - 1) as int, ts.len() + m as int));
        lemma_seq_join(
            c,
            i,
            i + 1,
            ts.len() + (m - 1) as int,
            seq![TokenType::LeftBracket],
            items_tokens(items),
        );
        lemma_seq_join(
            c,
            i,
            ts.len() + (m - 1) as int,
            ts.len() + m as int,
            seq![TokenType::LeftBracket] + items_tokens(items),
            seq![TokenType::RightBracket],
        );
        assert(tokens_of(v) == c.subrange(i, ts.len() + m as int));
    }
}

/// A value's final text token is its literal kind or a closer, never a comma,
/// colon, key-position String boundary marker, or opener that the end states
/// would confuse with structure.
proof fn lemma_value_span_last(ts: Seq<TokenType>, i: int, j: int, m: nat, v: JsonShape)
    requires
        value_span(ts, i, j, m, v),
    ensures
        ts[j] != TokenType::Comma,
        v is Object ==> ts[j] == TokenType::RightBrace,
        v is Array ==> ts[j] == TokenType::RightBracket,
{
    lemma_tokens_of_shape(v);
    if m == 0 {
        assert(ts[j] == tokens_of(v).last());
        match v {
            JsonShape::Literal(tt) => {
                assert(ts[j] == tt && tt.spec_is_literal());
            },
            JsonShape::Object(_) => {
                assert(ts[j] == TokenType::RightBrace);
            },
            JsonShape::Array(_) => {
                assert(ts[j] == TokenType::RightBracket);
            },
        }
    } else {
        // At the end of the text the value was closed by virtual closers, and
        // the final token matched one of them.
        lemma_cw_index(ts, m);
        assert(ts[j] == ts.last());
        assert(completed_with(ts, m)[ts.len() + m as int - 1] == tokens_of(v).last());
        assert(tokens_of(v).last() == ts.last());
        match v {
            JsonShape::Literal(tt) => {
                assert(tokens_of(v).len() == 1);
                assert(ts.len() + m as int - i == 1);
                assert(false);
            },
            JsonShape::Object(_) => {
                assert(ts[j] == TokenType::RightBrace);
            },
            JsonShape::Array(_) => {
                assert(ts[j] == TokenType::RightBracket);
            },
        }
    }
}

/// Retrieve the witnesses of an accepted member list.
proof fn extract_members(ts: Seq<TokenType>, p: int, stk: Seq<StateType>) -> (r: (
    Seq<JsonShape>,
    int,
    nat,
))
    requires
        exists|ms: Seq<JsonShape>, j: int, m: nat| w_members(ts, p, stk, ms, j, m),
    ensures
        w_members(ts, p, stk, r.0, r.1, r.2),
{
    choose|ms: Seq<JsonShape>, j: int, m: nat| w_members(ts, p, stk, ms, j, m)
}

/// Retrieve the witnesses of an accepted item list.
proof fn extract_items(ts: Seq<TokenType>, p: int, stk: Seq<StateType>) -> (r: (
    Seq<JsonShape>,
    int,
    nat,
))
    requires
        exists|items: Seq<JsonShape>, j: int, m: nat| w_items(ts, p, stk, items, j, m),
    ensures
        w_items(ts, p, stk, r.0, r.1, r.2),
{
    choose|items: Seq<JsonShape>, j: int, m: nat| w_items(ts, p, stk, items, j, m)
}

/// Retrieve the witnesses of the comma case of the ObjectPropertyEnd claim.
proof fn extract_ope(ts: Seq<TokenType>, p: int, stk: Seq<StateType>) -> (r: (
    Seq<JsonShape>,
    int,
    nat,
))
    requires
        exists|ms: Seq<JsonShape>, j: int, m: nat| w_ope(ts, p, stk, ms, j, m),
    ensures
        w_ope(ts, p, stk, r.0, r.1, r.2),
{
    choose|ms: Seq<JsonShape>, j: int, m: nat| w_ope(ts, p, stk, ms, j, m)
}

/// Retrieve the witnesses of the comma case of the ArrayItemEnd claim.
proof fn extract_aie(ts: Seq<TokenType>, p: int, stk: Seq<StateType>) -> (r: (
    Seq<JsonShape>,
    int,
    nat,
))
    requires
        exists|items: Seq<JsonShape>, j: int, m: nat| w_aie(ts, p, stk, items, j, m),
    ensures
        w_aie(ts, p, stk, r.0, r.1, r.2),
{
    choose|items: Seq<JsonShape>, j: int, m: nat| w_aie(ts, p, stk, items, j, m)
}

/// After a member's value spanning `[istart + 2, e]`: the ObjectPropertyEnd
/// continuation either closes the object at the brace after the value (or at
/// the shared final token) or a comma opens the next member; either way the
/// whole member list is accounted for.
proof fn lemma_op_after_value(
    ts: Seq<TokenType>,
    istart: int,
    e: int,
    mv: nat,
    v0: JsonShape,
    stk: Seq<StateType>,
)
    requires
        0 <= istart,
        istart + 2 <= e < ts.len(),
        value_span(ts, istart + 2, e, mv, v0),
        ts[istart] == TokenType::String,
        ts[istart + 1] == TokenType::Colon,
        stk.len() >= 1,
        stk.last() == StateType::ObjectPropertyEnd,
        run(ts, istart, StateType::ObjectProperty, stk) == run(
            ts,
            adv(ts, e),
            StateType::ObjectPropertyEnd,
            stk.drop_last(),
        ),
    ensures
        run(ts, istart, StateType::ObjectProperty, stk) is Some ==> (exists|
            ms: Seq<JsonShape>,
            j: int,
            m: nat,
        | w_members(ts, istart, stk, ms, j, m)),
    decreases rem(ts, istart), 1int, stk.len(), 0int,
{
    reveal_with_fuel(run, 3);
    let i = istart;
    let stk0 = stk.drop_last();
    let r = run(ts, i, StateType::ObjectProperty, stk);
    let len = ts.len() as int;
    if r is Some {
        lemma_run_sound(ts, adv(ts, e), StateType::ObjectPropertyEnd, stk0);
        lemma_value_span_last(ts, istart + 2, e, mv, v0);
        assert(seq![TokenType::String, TokenType::Colon] =~= ts.subrange(i, i + 2));
        if ts[adv(ts, e)] == TokenType::RightBrace && r == val_continue(ts, adv(ts, e), stk0) {
            let ms = seq![v0];
            assert(ms[0] == v0 && shapes_wf(ms));
            assert(members_tokens(ms) == member_tokens(v0));
            assert(member_tokens(v0) == seq![TokenType::String, TokenType::Colon] + tokens_of(
                v0,
            ));
            if adv(ts, e) == e + 1 {
                // The brace after the value really closes the object.
                assert(mv == 0);
                lemma_seq_join(
                    ts,
                    i,
                    i + 2,
                    e + 1,
                    seq![TokenType::String, TokenType::Colon],
                    tokens_of(v0),
                );
                assert(members_span(ts, i, e + 1, 0, ms));
                assert(w_members(ts, i, stk, ms, e + 1, 0nat));
            } else {
                // The value ended on the final token, which stands in for the
                // missing brace.
                assert(e == len - 1);
                if mv == 0 {
                    lemma_cw_sub(ts, 0, i, i + 2);
                    lemma_cw_sub(ts, 0, i + 2, len);
                    lemma_seq_join(
                        completed_with(ts, 0),
                        i,
                        i + 2,
                        len,
                        seq![TokenType::String, TokenType::Colon],
                        tokens_of(v0),
                    );
                    assert(members_span(ts, i, e, 1, ms));
                    assert(w_members(ts, i, stk, ms, e, 1nat));
                } else {
                    let c = completed_with(ts, mv);
                    lemma_cw_sub(ts, mv, i, i + 2);
                    lemma_seq_join(
                        c,
                        i,
                        i + 2,
                        len + mv as int,
                        seq![TokenType::String, TokenType::Colon],
                        tokens_of(v0),
                    );
                    assert(members_span(ts, i, e, (mv + 1) as nat, ms));
                    assert(w_members(ts, i, stk, ms, e, (mv + 1) as nat));
                }
            }
        } else {
            // Only the comma disjunct of the end state's claim is left.
            assert(ts[adv(ts, e)] == TokenType::Comma);
            assert(adv(ts, e) == e + 1);
            assert(mv == 0);
            let (ms1, j1, m1) = extract_ope(ts, e + 1, stk0);
            assert(members_span(ts, e + 2, j1, m1, ms1));
            let ms = seq![v0] + ms1;
            assert(ms[0] == v0);
            assert(ms.drop_first() =~= ms1);
            assert(ms.len() >= 2);
            assert(forall|k: int| 0 <= k < ms.len() ==> (#[trigger] ms[k]).wf());
            assert(members_tokens(ms) == member_tokens(ms[0]) + seq![TokenType::Comma]
                + members_tokens(ms.drop_first()));
            assert(member_tokens(v0) == seq![TokenType::String, TokenType::Colon] + tokens_of(
                v0,
            ));
            lemma_seq_join(
                ts,
                i,
                i + 2,
                e + 1,
                seq![TokenType::String, TokenType::Colon],
                tokens_of(v0),
            );
            assert(seq![TokenType::Comma] =~= ts.subrange(e + 1, e + 2));
            lemma_seq_join(ts, i, e + 1, e + 2, member_tokens(v0), seq![TokenType::Comma]);
            if m1 == 0 {
                lemma_seq_join(
                    ts,
                    i,
                    e + 2,
                    j1,
                    member_tokens(v0) + seq![TokenType::Comma],
                    members_tokens(ms1),
                );
                assert(members_span(ts, i, j1, 0, ms));
                assert(w_members(ts, i, stk, ms, j1, 0nat));
            } else {
                let c = completed_with(ts, (m1 - 1) as nat);
                lemma_cw_sub(ts, (m1 - 1) as nat, i, e + 2);
                lemma_seq_join(
                    c,
                    i,
                    e + 2,
                    len + (m1 - 1) as int,
                    member_tokens(v0) + seq![TokenType::Comma],
                    members_tokens(ms1),
                );
                assert(members_span(ts, i, j1, m1, ms));
                assert(w_members(ts, i, stk, ms, j1, m1));
            }
        }
    }
}

/// After an item's value spanning `[istart, e]`: the ArrayItemEnd
/// continuation either closes the array at the bracket after the value (or at
/// the shared final token) or a comma opens the next item.
proof fn lemma_ai_after_value(
    ts: Seq<TokenType>,
    istart: int,
    e: int,
    mv: nat,
    v0: JsonShape,
    stk: Seq<StateType>,
)
    requires
        0 <= istart <= e < ts.len(),
        value_span(ts, istart, e, mv, v0),
        stk.len() >= 1,
        stk.last() == StateType::ArrayItemEnd,
        run(ts, istart, StateType::ArrayItem, stk) == run(
            ts,
            adv(ts, e),
            StateType::ArrayItemEnd,
            stk.drop_last(),
        ),
    ensures
        run(ts, istart, StateType::ArrayItem, stk) is Some ==> (exists|
            items: Seq<JsonShape>,
            j: int,
            m: nat,
        | w_items(ts, istart, stk, items, j, m)),
    decreases rem(ts, istart), 1int, stk.len(), 0int,
{
    reveal_with_fuel(run, 3);
    let i = istart;
    let stk0 = stk.drop_last();
    let r = run(ts, i, StateType::ArrayItem, stk);
    let len = ts.len() as int;
    if r is Some {
        lemma_run_sound(ts, adv(ts, e), StateType::ArrayItemEnd, stk0);
        lemma_value_span_last(ts, istart, e, mv, v0);
        if ts[adv(ts, e)] == TokenType::RightBracket && r == val_continue(ts, adv(ts, e), stk0) {
            let items = seq![v0];
            assert(items[0] == v0 && shapes_wf(items));
            assert(items_tokens(items) == tokens_of(v0));
            if adv(ts, e) == e + 1 {
                assert(mv == 0);
                assert(items_span(ts, i, e + 1, 0, items));
                assert(w_items(ts, i, stk, items, e + 1, 0nat));
            } else {
                assert(e == len - 1);
                if mv == 0 {
                    lemma_cw_sub(ts, 0, i, len);
                    assert(items_span(ts, i, e, 1, items));
                    assert(w_items(ts, i, stk, items, e, 1nat));
                } else {
                    assert(items_span(ts, i, e, (mv + 1) as nat, items));
                    assert(w_items(ts, i, stk, items, e, (mv + 1) as nat));
                }
            }
        } else {
            assert(ts[adv(ts, e)] == TokenType::Comma);
            assert(adv(ts, e) == e + 1);
            assert(mv == 0);
            let (items1, j1, m1) = extract_aie(ts, e + 1, stk0);
            assert(items_span(ts, e + 2, j1, m1, items1));
            let items = seq![v0] + items1;
            assert(items[0] == v0);
            assert(items.drop_first() =~= items1);
            assert(items.len() >= 2);
            assert(forall|k: int| 0 <= k < items.len() ==> (#[trigger] items[k]).wf());
            assert(items_tokens(items) == tokens_of(items[0]) + seq![TokenType::Comma]
                + items_tokens(items.drop_first()));
            assert(seq![TokenType::Comma] =~= ts.subrange(e + 1, e + 2));
            lemma_seq_join(ts, i, e + 1, e + 2, tokens_of(v0), seq![TokenType::Comma]);
            if m1 == 0 {
                lemma_seq_join(
                    ts,
                    i,
                    e + 2,
                    j1,
                    tokens_of(v0) + seq![TokenType::Comma],
                    items_tokens(items1),
                );
                assert(items_span(ts, i, j1, 0, items));
                assert(w_items(ts, i, stk, items, j1, 0nat));
            } else {
                let c = completed_with(ts, (m1 - 1) as nat);
                lemma_cw_sub(ts, (m1 - 1) as nat, i, e + 2);
                lemma_seq_join(
                    c,
                    i,
                    e + 2,
                    len + (m1 - 1) as int,
                    tokens_of(v0) + seq![TokenType::Comma],
                    items_tokens(items1),
                );
                assert(items_span(ts, i, j1, m1, items));
                assert(w_items(ts, i, stk, items, j1, m1));
            }
        }
    }
}

/// Soundness of the automaton: an accepting run from any reachable
/// configuration accounts for a well-formed construct in the text, up to
/// closers shared with the final token.
#[verifier::rlimit(100)]
#[verifier::spinoff_prover]
proof fn lemma_run_sound(ts: Seq<TokenType>, i: int, state: StateType, stk: Seq<StateType>)
    requires
        0 <= i < ts.len(),
        state == StateType::Object || state == StateType::Array || state
            == StateType::ObjectProperty || state == StateType::ArrayItem || state
            == StateType::ObjectPropertyEnd || state == StateType::ArrayItemEnd,
        state == StateType::ObjectProperty ==> stk.len() >= 1 && stk.last()
            == StateType::ObjectPropertyEnd,
        state == StateType::ArrayItem ==> stk.len() >= 1 && stk.last()
            == StateType::ArrayItemEnd,
    ensures
        run(ts, i, state, stk) is Some ==> sound_post(ts, i, state, stk),
    decreases rem(ts, i), state_rank(state), stk.len(), 1int,
{
    reveal_with_fuel(run, 3);
    let r = run(ts, i, state, stk);
    let len = ts.len() as int;
    if r is Some {
        match state {
            StateType::Object => {
                let st = h_object(ts, i);
                assert(ts[i] == TokenType::LeftBrace && i < len - 1);
                if ts[i + 1] == TokenType::RightBrace {
                    let v = JsonShape::Object(Seq::empty());
                    assert(members_tokens(Seq::<JsonShape>::empty()) == Seq::<
                        TokenType,
                    >::empty());
                    assert(tokens_of(v) =~= ts.subrange(i, i + 2));
                    assert(value_span(ts, i, i + 1, 0, v));
                    assert(r == val_continue(ts, i + 1, stk));
                    assert(w_container(ts, i, state, stk, v, i + 1, 0nat));
                } else {
                    assert(ts[i + 1] == TokenType::String);
                    let stk2 = stk.push(StateType::ObjectPropertyEnd);
                    assert(push_for(stk, state, StateType::ObjectProperty) == stk2);
                    assert(r == run(ts, i + 1, StateType::ObjectProperty, stk2));
                    lemma_run_sound(ts, i + 1, StateType::ObjectProperty, stk2);
                    let (ms, j, m) = extract_members(ts, i + 1, stk2);
                    assert(stk2.drop_last() =~= stk);
                    lemma_wrap_object(ts, i, j, m, ms);
                    assert(w_container(ts, i, state, stk, JsonShape::Object(ms), j, m));
                }
            },
            StateType::Array => {
                let st = h_array(ts, i);
                assert(ts[i] == TokenType::LeftBracket && i < len - 1);
                if ts[i + 1] == TokenType::RightBracket {
                    let v = JsonShape::Array(Seq::empty());
                    assert(items_tokens(Seq::<JsonShape>::empty()) == Seq::<TokenType>::empty());
                    assert(tokens_of(v) =~= ts.subrange(i, i + 2));
                    assert(value_span(ts, i, i + 1, 0, v));
                    assert(r == val_continue(ts, i + 1, stk));
                    assert(w_container(ts, i, state, stk, v, i + 1, 0nat));
                } else {
                    assert(ts[i + 1] != TokenType::Comma);
                    let stk2 = stk.push(StateType::ArrayItemEnd);
                    assert(push_for(stk, state, StateType::ArrayItem) == stk2);
                    assert(r == run(ts, i + 1, StateType::ArrayItem, stk2));
                    lemma_run_sound(ts, i + 1, StateType::ArrayItem, stk2);
                    let (items, j, m) = extract_items(ts, i + 1, stk2);
                    assert(stk2.drop_last() =~= stk);
                    lemma_wrap_array(ts, i, j, m, items);
                    assert(w_container(ts, i, state, stk, JsonShape::Array(items), j, m));
                }
            },
            StateType::ObjectProperty => {
                let stk0 = stk.drop_last();
                assert(ts[i] == TokenType::String && i + 2 <= len - 1 && ts[i + 1]
                    == TokenType::Colon);
                let c2 = ts[i + 2];
                if c2 == TokenType::LeftBrace {
                    if ts[i + 3] == TokenType::RightBrace {
                        let v0 = JsonShape::Object(Seq::empty());
                        assert(members_tokens(Seq::<JsonShape>::empty()) == Seq::<
                            TokenType,
                        >::empty());
                        assert(tokens_of(v0) =~= ts.subrange(i + 2, i + 4));
                        assert(value_span(ts, i + 2, i + 3, 0, v0));
                        assert(r == run(ts, adv(ts, i + 3), StateType::ObjectPropertyEnd, stk0));
                        lemma_op_after_value(ts, i, i + 3, 0nat, v0, stk);
                    } else if ts[i + 3] == TokenType::String {
                        let stk2 = stk.push(StateType::ObjectPropertyEnd);
                        assert(r == run(ts, i + 3, StateType::ObjectProperty, stk2));
                        lemma_run_sound(ts, i + 3, StateType::ObjectProperty, stk2);
                        let (ms, j, m) = extract_members(ts, i + 3, stk2);
                        assert(stk2.drop_last() =~= stk);
                        lemma_wrap_object(ts, i + 2, j, m, ms);
                        assert(r == run(ts, adv(ts, j), StateType::ObjectPropertyEnd, stk0));
                        lemma_op_after_value(ts, i, j, m, JsonShape::Object(ms), stk);
                    } else {
                        assert(false);
                    }
                } else if c2 == TokenType::LeftBracket {
                    if ts[i + 3] == TokenType::RightBracket {
                        let v0 = JsonShape::Array(Seq::empty());
                        assert(items_tokens(Seq::<JsonShape>::empty()) == Seq::<
                            TokenType,
                        >::empty());
                        assert(tokens_of(v0) =~= ts.subrange(i + 2, i + 4));
                        assert(value_span(ts, i + 2, i + 3, 0, v0));
                        assert(r == run(ts, adv(ts, i + 3), StateType::ObjectPropertyEnd, stk0));
                        lemma_op_after_value(ts, i, i + 3, 0nat, v0, stk);
                    } else {
                        assert(ts[i + 3] != TokenType::Comma);
                        let stk2 = stk.push(StateType::ArrayItemEnd);
                        assert(r == run(ts, i + 3, StateType::ArrayItem, stk2));
                        lemma_run_sound(ts, i + 3, StateType::ArrayItem, stk2);
                        let (items, j, m) = extract_items(ts, i + 3, stk2);
                        assert(stk2.drop_last() =~= stk);
                        lemma_wrap_array(ts, i + 2, j, m, items);
                        assert(r == run(ts, adv(ts, j), StateType::ObjectPropertyEnd, stk0));
                        lemma_op_after_value(ts, i, j, m, JsonShape::Array(items), stk);
                    }
                } else {
                    assert(c2.spec_is_literal());
                    let v0 = JsonShape::Literal(c2);
                    assert(tokens_of(v0) =~= ts.subrange(i + 2, i + 3));
                    assert(value_span(ts, i + 2, i + 2, 0, v0));
                    assert(r == run(ts, adv(ts, i + 2), StateType::ObjectPropertyEnd, stk0));
                    lemma_op_after_value(ts, i, i + 2, 0nat, v0, stk);
                }
            },
            StateType::ArrayItem => {
                let stk0 = stk.drop_last();
                let c0 = ts[i];
                if c0 == TokenType::LeftBrace {
                    assert(i < len - 1);
                    if ts[i + 1] == TokenType::RightBrace {
                        let v0 = JsonShape::Object(Seq::empty());
                        assert(members_tokens(Seq::<JsonShape>::empty()) == Seq::<
                            TokenType,
                        >::empty());
                        assert(tokens_of(v0) =~= ts.subrange(i, i + 2));
                        assert(value_span(ts, i, i + 1, 0, v0));
                        assert(r == run(ts, adv(ts, i + 1), StateType::ArrayItemEnd, stk0));
                        lemma_ai_after_value(ts, i, i + 1, 0nat, v0, stk);
                    } else {
                        assert(ts[i + 1] == TokenType::String);
                        let stk2 = stk.push(StateType::ObjectPropertyEnd);
                        assert(r == run(ts, i + 1, StateType::ObjectProperty, stk2));
                        lemma_run_sound(ts, i + 1, StateType::ObjectProperty, stk2);
                        let (ms, j, m) = extract_members(ts, i + 1, stk2);
                        assert(stk2.drop_last() =~= stk);
                        lemma_wrap_object(ts, i, j, m, ms);
                        assert(r == run(ts, adv(ts, j), StateType::ArrayItemEnd, stk0));
                        lemma_ai_after_value(ts, i, j, m, JsonShape::Object(ms), stk);
                    }
                } else if c0 == TokenType::LeftBracket {
                    assert(i < len - 1);
                    if ts[i + 1] == TokenType::RightBracket {
                        let v0 = JsonShape::Array(Seq::empty());
                        assert(items_tokens(Seq::<JsonShape>::empty()) == Seq::<TokenType>::empty());
                        assert(tokens_of(v0) =~= ts.subrange(i, i + 2));
                        assert(value_span(ts, i, i + 1, 0, v0));
                        assert(r == run(ts, adv(ts, i + 1), StateType::ArrayItemEnd, stk0));
                        lemma_ai_after_value(ts, i, i + 1, 0nat, v0, stk);
                    } else {
                        assert(ts[i + 1] != TokenType::Comma);
                        let stk2 = stk.push(StateType::ArrayItemEnd);
                        assert(r == run(ts, i + 1, StateType::ArrayItem, stk2));
                        lemma_run_sound(ts, i + 1, StateType::ArrayItem, stk2);
                        let (items, j, m) = extract_items(ts, i + 1, stk2);
                        assert(stk2.drop_last() =~= stk);
                        lemma_wrap_array(ts, i, j, m, items);
                        assert(r == run(ts, adv(ts, j), StateType::ArrayItemEnd, stk0));
                        lemma_ai_after_value(ts, i, j, m, JsonShape::Array(items), stk);
                    }
                } else {
                    assert(c0.spec_is_literal());
                    let v0 = JsonShape::Literal(c0);
                    assert(tokens_of(v0) =~= ts.subrange(i, i + 1));
                    assert(value_span(ts, i, i, 0, v0));
                    assert(r == run(ts, adv(ts, i), StateType::ArrayItemEnd, stk0));
                    // Inline continuation: the value is a single literal.
                    lemma_run_sound(ts, adv(ts, i), StateType::ArrayItemEnd, stk0);
                    lemma_value_span_last(ts, i, i, 0, v0);
                    if ts[adv(ts, i)] == TokenType::RightBracket && r == val_continue(
                        ts,
                        adv(ts, i),
                        stk0,
                    ) {
                        let items = seq![v0];
                        assert(items[0] == v0 && shapes_wf(items));
                        assert(items_tokens(items) == tokens_of(v0));
                        if adv(ts, i) == i + 1 {
                            assert(items_span(ts, i, i + 1, 0, items));
                            assert(w_items(ts, i, stk, items, i + 1, 0nat));
                        } else {
                            // The literal is the final token, but then it
                            // cannot also be the bracket the end state saw.
                            assert(ts[i] == TokenType::RightBracket);
                            assert(false);
                        }
                    } else {
                        assert(ts[adv(ts, i)] == TokenType::Comma);
                        assert(adv(ts, i) == i + 1);
                        let (items1, j1, m1) = extract_aie(ts, i + 1, stk0);
                        assert(items_span(ts, i + 2, j1, m1, items1));
                        let items = seq![v0] + items1;
                        assert(items[0] == v0);
                        assert(items.drop_first() =~= items1);
                        assert(forall|k: int|
                            0 <= k < items.len() ==> (#[trigger] items[k]).wf());
                        assert(items_tokens(items) == tokens_of(items[0]) + seq![
                            TokenType::Comma,
                        ] + items_tokens(items.drop_first()));
                        assert(seq![TokenType::Comma] =~= ts.subrange(i + 1, i + 2));
                        lemma_seq_join(ts, i, i + 1, i + 2, tokens_of(v0), seq![
                            TokenType::Comma,
                        ]);
                        if m1 == 0 {
                            lemma_seq_join(
                                ts,
                                i,
                                i + 2,
                                j1,
                                tokens_of(v0) + seq![TokenType::Comma],
                                items_tokens(items1),
                            );
                            assert(items_span(ts, i, j1, 0, items));
                            assert(w_items(ts, i, stk, items, j1, 0nat));
                        } else {
                            let c = completed_with(ts, (m1 - 1) as nat);
                            lemma_cw_sub(ts, (m1 - 1) as nat, i, i + 2);
                            lemma_seq_join(
                                c,
                                i,
                                i + 2,
                                len + (m1 - 1) as int,
                                tokens_of(v0) + seq![TokenType::Comma],
                                items_tokens(items1),
                            );
                            assert(items_span(ts, i, j1, m1, items));
                            assert(w_items(ts, i, stk, items, j1, m1));
                        }
                    }
                }
            },
            StateType::ObjectPropertyEnd => {
                if ts[i] == TokenType::RightBrace {
                    assert(r == val_continue(ts, i, stk));
                } else {
                    assert(ts[i] == TokenType::Comma && i < len - 1);
                    let stk2 = stk.push(StateType::ObjectPropertyEnd);
                    assert(push_for(stk, state, StateType::ObjectProperty) == stk2);
                    assert(r == run(ts, i + 1, StateType::ObjectProperty, stk2));
                    lemma_run_sound(ts, i + 1, StateType::ObjectProperty, stk2);
                    let (ms, j, m) = extract_members(ts, i + 1, stk2);
                    assert(stk2.drop_last() =~= stk);
                    assert(w_ope(ts, i, stk, ms, j, m));
                }
            },
            StateType::ArrayItemEnd => {
                if ts[i] == TokenType::RightBracket {
                    assert(r == val_continue(ts, i, stk));
                } else {
                    assert(ts[i] == TokenType::Comma && i < len - 1);
                    let stk2 = stk.push(StateType::ArrayItemEnd);
                    assert(push_for(stk, state, StateType::ArrayItem) == stk2);
                    assert(r == run(ts, i + 1, StateType::ArrayItem, stk2));
                    lemma_run_sound(ts, i + 1, StateType::ArrayItem, stk2);
                    let (items, j, m) = extract_items(ts, i + 1, stk2);
                    assert(stk2.drop_last() =~= stk);
                    assert(w_aie(ts, i, stk, items, j, m));
                }
            },
            _ => {},
        }
    }
}

} // verus!
