//! The JSON grammar at the token level, used only in specifications.
//!
//! A token sequence is a well-formed document exactly when it is the token
//! spelling of some object- or array-shaped value. The parser's contract is
//! stated against `is_valid_document`.

use vstd::prelude::*;

use crate::types::TokenType;

verus! {

/// The shape of a JSON value: a single value-bearing token, an array of
/// shapes, or an object whose members' values have shapes (a member's key is
/// always one String token, so members are described by their values alone).
pub ghost enum JsonShape {
    Literal(TokenType),
    Array(Seq<JsonShape>),
    Object(Seq<JsonShape>),
}

impl JsonShape {
    /// A literal shape carries a value-bearing token kind, recursively.
    pub open spec fn wf(self) -> bool
        decreases self,
    {
        match self {
            JsonShape::Literal(tt) => tt.spec_is_literal(),
            JsonShape::Array(items) => forall|k: int|
                0 <= k < items.len() ==> (#[trigger] items[k]).wf(),
            JsonShape::Object(members) => forall|k: int|
                0 <= k < members.len() ==> (#[trigger] members[k]).wf(),
        }
    }

    /// Whether the shape is an object or an array.
    pub open spec fn is_container(self) -> bool {
        self is Array || self is Object
    }
}

/// The token spelling of a shape: a literal is its token; an array is `[`,
/// its items separated by commas, `]`; an object is `{`, its members
/// separated by commas, `}`.
pub open spec fn tokens_of(v: JsonShape) -> Seq<TokenType>
    decreases v, 0int,
{
    match v {
        JsonShape::Literal(tt) => seq![tt],
        JsonShape::Array(items) => seq![TokenType::LeftBracket] + items_tokens(items) + seq![
            TokenType::RightBracket,
        ],
        JsonShape::Object(members) => seq![TokenType::LeftBrace] + members_tokens(members) + seq![
            TokenType::RightBrace,
        ],
    }
}

/// The token spelling of an array's items: the items' spellings joined by
/// commas.
pub open spec fn items_tokens(items: Seq<JsonShape>) -> Seq<TokenType>
    decreases items, 0int,
{
    if items.len() == 0 {
        Seq::empty()
    } else if items.len() == 1 {
        tokens_of(items[0])
    } else {
        tokens_of(items[0]) + seq![TokenType::Comma] + items_tokens(items.drop_first())
    }
}

/// The token spelling of an object's members: `key : value` groups joined by
/// commas, each key a single String token.
pub open spec fn members_tokens(members: Seq<JsonShape>) -> Seq<TokenType>
    decreases members, 0int,
{
    if members.len() == 0 {
        Seq::empty()
    } else if members.len() == 1 {
        member_tokens(members[0])
    } else {
        member_tokens(members[0]) + seq![TokenType::Comma] + members_tokens(members.drop_first())
    }
}

/// One object member: its String key, the colon, and its value's spelling.
pub open spec fn member_tokens(v: JsonShape) -> Seq<TokenType>
    decreases v, 1int,
{
    seq![TokenType::String, TokenType::Colon] + tokens_of(v)
}

/// A well-formed JSON document at the token level: the spelling of some
/// object- or array-shaped value.
pub open spec fn is_valid_document(ts: Seq<TokenType>) -> bool {
    exists|v: JsonShape| v.is_container() && v.wf() && tokens_of(v) == ts
}

/// Some prefix of the tokens, ending at index `j`, is a well-formed document
/// on its own.
pub open spec fn valid_prefix_to(ts: Seq<TokenType>, j: int) -> bool {
    0 <= j < ts.len() && is_valid_document(ts.subrange(0, j + 1))
}

/// The tokens with `k` copies of their final token appended. The automaton's
/// pop-and-advance protocol cannot move past the final token, so a sequence
/// that ends exactly at a nested construct's closing token is accepted as if
/// that closer also closed the pending outer constructs; such a sequence is a
/// well-formed document once its final closer is repeated.
pub open spec fn completed_with(ts: Seq<TokenType>, k: nat) -> Seq<TokenType> {
    ts + Seq::new(k, |q: int| ts.last())
}

/// A shape's spelling is never empty and is bracketed appropriately: it opens
/// with its value's first token and a container closes with its closer.
pub proof fn lemma_tokens_of_shape(v: JsonShape)
    ensures
        tokens_of(v).len() >= 1,
        v is Object ==> tokens_of(v).len() >= 2 && tokens_of(v).first() == TokenType::LeftBrace
            && tokens_of(v).last() == TokenType::RightBrace,
        v is Array ==> tokens_of(v).len() >= 2 && tokens_of(v).first() == TokenType::LeftBracket
            && tokens_of(v).last() == TokenType::RightBracket,
        v is Literal ==> tokens_of(v).len() == 1,
{
}

/// A well-formed document has at least two tokens, opens with `{` or `[`,
/// and closes with the matching `}` or `]`.
pub proof fn lemma_document_shape(ts: Seq<TokenType>)
    requires
        is_valid_document(ts),
    ensures
        ts.len() >= 2,
        ts.first() == TokenType::LeftBrace || ts.first() == TokenType::LeftBracket,
        ts.last() == TokenType::RightBrace || ts.last() == TokenType::RightBracket,
{
    let v = choose|v: JsonShape| v.is_container() && v.wf() && tokens_of(v) == ts;
    lemma_tokens_of_shape(v);
}

} // verus!
