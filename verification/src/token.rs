//! Tokens: the lexical units that the scanner produces and the parser
//! consumes.

use vstd::prelude::*;

verus! {

/// The kind of one lexical unit of template text.
#[derive(Clone, Copy, Debug, PartialEq, Eq, Structural)]
pub enum TokenType {
    Colon,
    Attribute,
    AttributeValue,
    Interpolation,
    TagOpen,
    TagClose,
    TextNode,
}

/// One lexical unit: a kind, a best-effort character offset into the source,
/// and a text payload for every kind except `Colon`.
#[derive(Clone, Debug, PartialEq)]
pub struct Token {
    pub token_type: TokenType,
    pub position: usize,
    pub value: Option<String>,
}

/// The mathematical value of a token.
pub ghost struct TokenView {
    pub kind: TokenType,
    pub pos: int,
    pub val: Option<Seq<char>>,
}

impl View for Token {
    type V = TokenView;

    open spec fn view(&self) -> TokenView {
        TokenView {
            kind: self.token_type,
            pos: self.position as int,
            val: match self.value {
                Some(s) => Some(s@),
                None => None,
            },
        }
    }
}

/// The views of a token sequence.
pub open spec fn token_views(ts: Seq<Token>) -> Seq<TokenView> {
    ts.map_values(|t: Token| t@)
}

/// A token that carries a payload, as a view.
pub open spec fn valued(kind: TokenType, pos: int, text: Seq<char>) -> TokenView {
    TokenView { kind, pos, val: Some(text) }
}

/// The `Colon` token at a position, as a view.
pub open spec fn colon_at(pos: int) -> TokenView {
    TokenView { kind: TokenType::Colon, pos, val: None }
}

/// Every kind except `Colon` carries a payload; `Colon` carries none.
pub open spec fn wf_token(t: TokenView) -> bool {
    t.kind == TokenType::Colon <==> t.val is None
}

/// Every token of the sequence carries a payload exactly when its kind
/// asks for one.
pub open spec fn wf_tokens(ts: Seq<TokenView>) -> bool {
    forall|i: int| 0 <= i < ts.len() ==> wf_token(#[trigger] ts[i])
}

impl Token {
    /// A token of the given kind with a text payload.
    pub fn new_with_value(token_type: TokenType, position: usize, value: &str) -> (t: Token)
        ensures
            t@ == valued(token_type, position as int, value@),
    {
        Token { token_type, position, value: Some(value.to_owned()) }
    }

    /// A token of the given kind with no payload.
    pub fn new(token_type: TokenType, position: usize) -> (t: Token)
        ensures
            t@ == (TokenView { kind: token_type, pos: position as int, val: None }),
    {
        Token { token_type, position, value: None }
    }
}

/// Appending a token to a sequence appends its view to the sequence's views.
pub broadcast proof fn lemma_token_views_push(ts: Seq<Token>, t: Token)
    ensures
        #[trigger] token_views(ts.push(t)) == token_views(ts).push(t@),
{
    assert(token_views(ts.push(t)) =~= token_views(ts).push(t@));
}

} // verus!
