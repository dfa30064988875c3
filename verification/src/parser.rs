//! The parser: single-token lookahead recursive descent over the token
//! sequence, producing the syntax tree that the downstream generator
//! consumes.

use vstd::prelude::*;

use crate::token::token_views;
use crate::token::wf_token;
use crate::token::wf_tokens;
use crate::token::Token;
use crate::token::TokenType;
use crate::token::TokenView;

verus! {

/// A typed parsing failure.
#[derive(Debug, PartialEq)]
pub enum ParserError {
    /// A production needed another token but none remained. The position is
    /// a fixed placeholder, not a source offset.
    UnexpectedEof(usize),
    /// A token stands where the grammar forbids it.
    UnexpectedToken(Token),
    /// A closing tag's name (first field) differs from the name of the tag
    /// it closes (second field).
    UnmatchingClosing(String, String),
}

/// The mathematical value of a parsing failure.
pub ghost enum ParserErrorView {
    UnexpectedEof(int),
    UnexpectedToken(TokenView),
    UnmatchingClosing(Seq<char>, Seq<char>),
}

impl View for ParserError {
    type V = ParserErrorView;

    open spec fn view(&self) -> ParserErrorView {
        match *self {
            ParserError::UnexpectedEof(p) => ParserErrorView::UnexpectedEof(p as int),
            ParserError::UnexpectedToken(t) => ParserErrorView::UnexpectedToken(t@),
            ParserError::UnmatchingClosing(f, e) => ParserErrorView::UnmatchingClosing(f@, e@),
        }
    }
}

/// What one node of the tree is.
#[derive(Debug, PartialEq)]
pub enum NodeType {
    /// The tree's entry point; its children are the top-level content.
    Root,
    /// An element with the given name; its children are its attributes
    /// followed by its nested content, in source order.
    Tag(String),
    /// One interpolation placeholder, holding its expression text verbatim.
    Code(String),
    /// Plain text.
    Text(String),
    /// An attribute: its name, its value token when one was present, and
    /// whether the name was preceded by a `Colon` (a bound attribute).
    Attribute(String, Option<Token>, bool),
}

/// An attribute's value in a node's mathematical value: nothing, or the
/// value token's offset and text. (A token value is flattened here: a
/// ghost payload holding `Option` inside this recursive datatype defeats
/// the automation around the tree's view.)
pub ghost enum AttrVal {
    NoValue,
    Value(int, Seq<char>),
}

/// The mathematical value of a node kind.
pub ghost enum NodeTypeView {
    Root,
    Tag(Seq<char>),
    Code(Seq<char>),
    Text(Seq<char>),
    Attribute(Seq<char>, AttrVal, bool),
}

impl View for NodeType {
    type V = NodeTypeView;

    open spec fn view(&self) -> NodeTypeView {
        match *self {
            NodeType::Root => NodeTypeView::Root,
            NodeType::Tag(n) => NodeTypeView::Tag(n@),
            NodeType::Code(n) => NodeTypeView::Code(n@),
            NodeType::Text(n) => NodeTypeView::Text(n@),
            NodeType::Attribute(n, v, b) => NodeTypeView::Attribute(
                n@,
                match v {
                    Some(t) => match t.value {
                        Some(s) => AttrVal::Value(t.position as int, s@),
                        None => AttrVal::NoValue,
                    },
                    None => AttrVal::NoValue,
                },
                b,
            ),
        }
    }
}

/// One node of the syntax tree, owning its children in source order.
#[derive(Debug, PartialEq)]
pub struct Node {
    pub node_type: NodeType,
    pub children: Vec<Node>,
}

/// The mathematical value of a node: its kind and its children's values.
pub ghost struct NodeView {
    pub node_type: NodeTypeView,
    pub children: Seq<NodeView>,
}

impl View for Node {
    type V = NodeView;

    open spec fn view(&self) -> NodeView
        decreases *self,
    {
        NodeView {
            node_type: self.node_type@,
            children: Seq::new(
                self.children@.len(),
                |i: int|
                    if 0 <= i < self.children@.len() {
                        self.children@[i]@
                    } else {
                        NodeView { node_type: NodeTypeView::Root, children: Seq::empty() }
                    },
            ),
        }
    }
}

impl Node {
    /// A childless node of the given kind.
    pub fn new(node_type: NodeType) -> (n: Node)
        ensures
            n@ == (NodeView { node_type: node_type@, children: Seq::<NodeView>::empty() }),
    {
        let n = Node { node_type, children: Vec::new() };
        proof {
            assert(n@.children =~= Seq::<NodeView>::empty());
        }
        n
    }

    /// Appends one child after the existing ones.
    pub fn add_child(&mut self, node: Node)
        ensures
            final(self)@ == (NodeView {
                node_type: old(self)@.node_type,
                children: old(self)@.children.push(node@),
            }),
    {
        self.children.push(node);
        proof {
            assert(self.children@ == old(self).children@.push(node));
            assert(self@.children =~= old(self)@.children.push(node@));
        }
    }
}

/// The head token when it has the wanted kind; `UnexpectedEof` on an empty
/// stream, `UnexpectedToken` otherwise.
pub open spec fn expect_toks(ts: Seq<TokenView>, kind: TokenType) -> Result<
    (TokenView, Seq<TokenView>),
    ParserErrorView,
> {
    if ts.len() == 0 {
        Err(ParserErrorView::UnexpectedEof(0))
    } else if ts[0].kind == kind {
        Ok((ts[0], ts.skip(1)))
    } else {
        Err(ParserErrorView::UnexpectedToken(ts[0]))
    }
}

/// The head token when it has the wanted kind, nothing when it has another,
/// `UnexpectedEof` on an empty stream.
pub open spec fn take_if_present_toks(ts: Seq<TokenView>, kind: TokenType) -> Result<
    (Option<TokenView>, Seq<TokenView>),
    ParserErrorView,
> {
    if ts.len() == 0 {
        Err(ParserErrorView::UnexpectedEof(0))
    } else if ts[0].kind == kind {
        Ok((Some(ts[0]), ts.skip(1)))
    } else {
        Ok((None, ts))
    }
}

/// A text leaf from one `TextNode` token.
pub open spec fn text_child(t: TokenView) -> NodeView {
    NodeView { node_type: NodeTypeView::Text(t.val.unwrap()), children: Seq::<NodeView>::empty() }
}

/// A code leaf from one `Interpolation` token.
pub open spec fn code_child(t: TokenView) -> NodeView {
    NodeView { node_type: NodeTypeView::Code(t.val.unwrap()), children: Seq::<NodeView>::empty() }
}

/// The attribute value carried by an optional `AttributeValue` token.
pub open spec fn attr_val_of(v: Option<TokenView>) -> AttrVal {
    match v {
        Some(tv) => match tv.val {
            Some(s) => AttrVal::Value(tv.pos, s),
            None => AttrVal::NoValue,
        },
        None => AttrVal::NoValue,
    }
}

/// The attribute production: an optional leading `Colon` (for a bound
/// attribute), the `Attribute` name, and an optional `AttributeValue`.
pub open spec fn parse_attribute_toks(ts: Seq<TokenView>, is_bound: bool) -> Result<
    (NodeView, Seq<TokenView>),
    ParserErrorView,
> {
    let after_colon: Result<Seq<TokenView>, ParserErrorView> = if is_bound {
        match expect_toks(ts, TokenType::Colon) {
            Ok((_, r)) => Ok(r),
            Err(e) => Err(e),
        }
    } else {
        Ok(ts)
    };
    match after_colon {
        Err(e) => Err(e),
        Ok(ts1) => match expect_toks(ts1, TokenType::Attribute) {
            Err(e) => Err(e),
            Ok((a, ts2)) => match take_if_present_toks(ts2, TokenType::AttributeValue) {
                Err(e) => Err(e),
                Ok((v, ts3)) => Ok(
                    (
                        NodeView {
                            node_type: NodeTypeView::Attribute(
                                a.val.unwrap(),
                                attr_val_of(v),
                                is_bound,
                            ),
                            children: Seq::<NodeView>::empty(),
                        },
                        ts3,
                    ),
                ),
            },
        },
    }
}

/// Whether a token kind can start a child inside a tag.
pub open spec fn starts_child(kind: TokenType) -> bool {
    kind == TokenType::Colon || kind == TokenType::Attribute || kind == TokenType::TagOpen
        || kind == TokenType::TextNode || kind == TokenType::Interpolation
}

/// One element: the opening token gives its name, then its children, then a
/// closing token whose name must match; a different name is
/// `UnmatchingClosing(found, expected)`, a missing one `UnexpectedEof`.
pub open spec fn parse_tag_toks(ts: Seq<TokenView>) -> Result<
    (NodeView, Seq<TokenView>),
    ParserErrorView,
>
    decreases ts.len(), 0int,
{
    if ts.len() == 0 {
        Err(ParserErrorView::UnexpectedEof(0))
    } else {
        match parse_children_toks(ts.skip(1)) {
            Err(e) => Err(e),
            Ok((children, rest)) => {
                if rest.len() == 0 {
                    Err(ParserErrorView::UnexpectedEof(0))
                } else if rest[0].kind != TokenType::TagClose {
                    Err(ParserErrorView::UnexpectedToken(rest[0]))
                } else if rest[0].val != ts[0].val {
                    Err(
                        ParserErrorView::UnmatchingClosing(rest[0].val.unwrap(), ts[0].val.unwrap()),
                    )
                } else {
                    Ok(
                        (
                            NodeView { node_type: NodeTypeView::Tag(ts[0].val.unwrap()), children },
                            rest.skip(1),
                        ),
                    )
                }
            },
        }
    }
}

/// The children of an element, in source order, up to the first token that
/// starts none of the child productions.
pub open spec fn parse_children_toks(ts: Seq<TokenView>) -> Result<
    (Seq<NodeView>, Seq<TokenView>),
    ParserErrorView,
>
    decreases ts.len(), 1int,
{
    if ts.len() == 0 || !starts_child(ts[0].kind) {
        Ok((Seq::<NodeView>::empty(), ts))
    } else {
        let step: Result<(NodeView, Seq<TokenView>), ParserErrorView> = if ts[0].kind
            == TokenType::Colon {
            parse_attribute_toks(ts, true)
        } else if ts[0].kind == TokenType::Attribute {
            parse_attribute_toks(ts, false)
        } else if ts[0].kind == TokenType::TagOpen {
            parse_tag_toks(ts)
        } else if ts[0].kind == TokenType::TextNode {
            Ok((text_child(ts[0]), ts.skip(1)))
        } else {
            Ok((code_child(ts[0]), ts.skip(1)))
        };
        match step {
            Err(e) => Err(e),
            Ok((node, rest)) => if rest.len() < ts.len() {
                match parse_children_toks(rest) {
                    Err(e) => Err(e),
                    Ok((more, rest2)) => Ok((seq![node] + more, rest2)),
                }
            } else {
                // never reached: a child production always consumes a token
                Err(ParserErrorView::UnexpectedEof(0))
            },
        }
    }
}

/// The top-level items: tags and text until the tokens are exhausted; any
/// other leading token is `UnexpectedToken`.
pub open spec fn parse_items_toks(ts: Seq<TokenView>) -> Result<Seq<NodeView>, ParserErrorView>
    decreases ts.len(), 2int,
{
    if ts.len() == 0 {
        Ok(Seq::<NodeView>::empty())
    } else if ts[0].kind == TokenType::TagOpen {
        match parse_tag_toks(ts) {
            Err(e) => Err(e),
            Ok((node, rest)) => if rest.len() < ts.len() {
                match parse_items_toks(rest) {
                    Err(e) => Err(e),
                    Ok(more) => Ok(seq![node] + more),
                }
            } else {
                // never reached: a tag always consumes its opening token
                Err(ParserErrorView::UnexpectedEof(0))
            },
        }
    } else if ts[0].kind == TokenType::TextNode {
        match parse_items_toks(ts.skip(1)) {
            Err(e) => Err(e),
            Ok(more) => Ok(seq![text_child(ts[0])] + more),
        }
    } else {
        Err(ParserErrorView::UnexpectedToken(ts[0]))
    }
}

/// The tree of a whole token sequence: a `Root` holding the top-level items,
/// or the first parse error.
pub open spec fn parse_toks(ts: Seq<TokenView>) -> Result<NodeView, ParserErrorView> {
    match parse_items_toks(ts) {
        Ok(children) => Ok(NodeView { node_type: NodeTypeView::Root, children }),
        Err(e) => Err(e),
    }
}

/// The parser: it owns the token sequence and consumes it from the front.
pub struct Parser {
    pub tokens: Vec<Token>,
}

impl Parser {
    /// The remaining tokens, as views.
    pub open spec fn toks(self) -> Seq<TokenView> {
        token_views(self.tokens@)
    }

    /// Every remaining token carries a payload exactly when its kind asks
    /// for one. The scanner only produces such streams.
    pub open spec fn wf(self) -> bool {
        wf_tokens(self.toks())
    }

    /// A parser over the given token sequence.
    pub fn new(tokens: Vec<Token>) -> (p: Parser)
        ensures
            p.toks() == token_views(tokens@),
    {
        Parser { tokens }
    }

    /// The next token, if any, without consuming it.
    pub fn peek(&self) -> (r: Option<&Token>)
        ensures
            (match r {
                Some(t) => self.toks().len() > 0 && t@ == self.toks()[0],
                None => self.toks().len() == 0,
            }),
    {
        if self.tokens.len() > 0 {
            Some(&self.tokens[0])
        } else {
            None
        }
    }

    /// Consumes and returns the next token, if any.
    pub fn next(&mut self) -> (r: Option<Token>)
        ensures
            final(self).toks().len() <= old(self).toks().len(),
            old(self).wf() ==> final(self).wf(),
            (match r {
                Some(t) => old(self).toks().len() > 0 && t@ == old(self).toks()[0]
                    && final(self).toks() == old(self).toks().skip(1),
                None => old(self).toks().len() == 0 && final(self).toks() == old(self).toks(),
            }),
    {
        if self.tokens.len() > 0 {
            let t = self.tokens.remove(0);
            proof {
                assert(token_views(self.tokens@) =~= token_views(old(self).tokens@).skip(1));
                if wf_tokens(old(self).toks()) {
                    assert forall|i: int| 0 <= i < self.toks().len() implies wf_token(
                        #[trigger] self.toks()[i],
                    ) by {
                        assert(self.toks()[i] == old(self).toks()[i + 1]);
                    }
                }
            }
            Some(t)
        } else {
            None
        }
    }

    /// Consumes the next token, which must have the wanted kind; otherwise
    /// the typed failure that `expect_toks` gives.
    pub fn expect(&mut self, token_type: TokenType) -> (r: Result<Token, ParserError>)
        ensures
            final(self).toks().len() <= old(self).toks().len(),
            old(self).wf() ==> final(self).wf(),
            (match (r, expect_toks(old(self).toks(), token_type)) {
                (Ok(t), Ok((tv, rest))) => t@ == tv && final(self).toks() == rest,
                (Err(e), Err(ev)) => e@ == ev,
                _ => false,
            }),
    {
        match self.next() {
            Some(token) => {
                if token.token_type == token_type {
                    Ok(token)
                } else {
                    Err(ParserError::UnexpectedToken(token))
                }
            },
            None => Err(ParserError::UnexpectedEof(0)),
        }
    }

    /// Consumes and returns the next token when it has the wanted kind;
    /// `UnexpectedEof` when no token remains.
    pub fn take_if_present(&mut self, token_type: TokenType) -> (r: Result<
        Option<Token>,
        ParserError,
    >)
        ensures
            final(self).toks().len() <= old(self).toks().len(),
            old(self).wf() ==> final(self).wf(),
            (match (r, take_if_present_toks(old(self).toks(), token_type)) {
                (Ok(t), Ok((tv, rest))) => final(self).toks() == rest && (match (t, tv) {
                    (Some(x), Some(xv)) => x@ == xv,
                    (None, None) => true,
                    _ => false,
                }),
                (Err(e), Err(ev)) => e@ == ev,
                _ => false,
            }),
    {
        let found = match self.peek() {
            Some(token) => token.token_type == token_type,
            None => {
                return Err(ParserError::UnexpectedEof(0));
            },
        };
        if found {
            Ok(self.next())
        } else {
            Ok(None)
        }
    }

    /// A text leaf from the next token, which must be a `TextNode`.
    pub fn parse_text_node(&mut self) -> (r: Result<Node, ParserError>)
        requires
            old(self).wf(),
        ensures
            final(self).wf(),
            final(self).toks().len() <= old(self).toks().len(),
            (match (r, expect_toks(old(self).toks(), TokenType::TextNode)) {
                (Ok(n), Ok((tv, rest))) => n@ == text_child(tv) && final(self).toks() == rest
                    && final(self).toks().len() < old(self).toks().len(),
                (Err(e), Err(ev)) => e@ == ev,
                _ => false,
            }),
    {
        let token = match self.expect(TokenType::TextNode) {
            Ok(t) => t,
            Err(e) => {
                return Err(e);
            },
        };
        let text = token.value.unwrap();
        Ok(Node::new(NodeType::Text(text)))
    }

    /// A code leaf from the next token, which must be an `Interpolation`.
    pub fn parse_interpolation_node(&mut self) -> (r: Result<Node, ParserError>)
        requires
            old(self).wf(),
        ensures
            final(self).wf(),
            final(self).toks().len() <= old(self).toks().len(),
            (match (r, expect_toks(old(self).toks(), TokenType::Interpolation)) {
                (Ok(n), Ok((tv, rest))) => n@ == code_child(tv) && final(self).toks() == rest
                    && final(self).toks().len() < old(self).toks().len(),
                (Err(e), Err(ev)) => e@ == ev,
                _ => false,
            }),
    {
        let token = match self.expect(TokenType::Interpolation) {
            Ok(t) => t,
            Err(e) => {
                return Err(e);
            },
        };
        let code = token.value.unwrap();
        Ok(Node::new(NodeType::Code(code)))
    }

    /// An attribute leaf: an optional `Colon`, the name, and an optional
    /// value token.
    pub fn parse_attribute(&mut self, is_bound: bool) -> (r: Result<Node, ParserError>)
        requires
            old(self).wf(),
        ensures
            final(self).wf(),
            final(self).toks().len() <= old(self).toks().len(),
            (match (r, parse_attribute_toks(old(self).toks(), is_bound)) {
                (Ok(n), Ok((nv, rest))) => n@ == nv && final(self).toks() == rest
                    && final(self).toks().len() < old(self).toks().len(),
                (Err(e), Err(ev)) => e@ == ev,
                _ => false,
            }),
    {
        if is_bound {
            match self.expect(TokenType::Colon) {
                Ok(_) => {},
                Err(e) => {
                    return Err(e);
                },
            }
        }
        let attribute = match self.expect(TokenType::Attribute) {
            Ok(t) => t.value.unwrap(),
            Err(e) => {
                return Err(e);
            },
        };
        let value = match self.take_if_present(TokenType::AttributeValue) {
            Ok(v) => v,
            Err(e) => {
                return Err(e);
            },
        };
        Ok(Node::new(NodeType::Attribute(attribute, value, is_bound)))
    }

    /// One element: the opening tag, its attribute and content children, and
    /// the matching closing tag; `UnmatchingClosing(found, expected)` when
    /// the names differ.
    #[verifier::spinoff_prover]
    #[verifier::rlimit(100)]
    #[verifier::loop_isolation(false)]
    pub fn parse_tag(&mut self) -> (r: Result<Node, ParserError>)
        requires
            old(self).wf(),
            old(self).toks().len() > 0,
            old(self).toks()[0].kind == TokenType::TagOpen,
        ensures
            final(self).wf(),
            final(self).toks().len() < old(self).toks().len(),
            (match (r, parse_tag_toks(old(self).toks())) {
                (Ok(n), Ok((nv, rest))) => n@ == nv && final(self).toks() == rest,
                (Err(e), Err(ev)) => e@ == ev,
                _ => false,
            }),
        decreases old(self).toks().len(),
    {
        let ghost t0 = old(self).toks();
        let open_tag = self.next().unwrap();
        let name: String = match &open_tag.value {
            Some(s) => s.clone(),
            None => String::new(),
        };
        let mut node = Node::new(NodeType::Tag(name));
        loop
            invariant
                self.wf(),
                self.toks().len() < t0.len(),
                node@.node_type == NodeTypeView::Tag(t0[0].val.unwrap()),
                (match parse_children_toks(self.toks()) {
                    Ok((more, rest)) => parse_children_toks(t0.skip(1)) == Ok::<
                        (Seq<NodeView>, Seq<TokenView>),
                        ParserErrorView,
                    >((node@.children + more, rest)),
                    Err(e) => parse_children_toks(t0.skip(1)) == Err::<
                        (Seq<NodeView>, Seq<TokenView>),
                        ParserErrorView,
                    >(e),
                }),
            decreases self.toks().len(),
        {
            let kind_opt: Option<TokenType> = match self.peek() {
                Some(t) => Some(t.token_type),
                None => None,
            };
            let k = match kind_opt {
                Some(k) => k,
                None => {
                    break ;
                },
            };
            if k == TokenType::Colon || k == TokenType::Attribute || k == TokenType::TagOpen || k
                == TokenType::TextNode || k == TokenType::Interpolation {
                let ghost cur = self.toks();
                let ghost children_before = node@.children;
                let child_r = if k == TokenType::Colon {
                    self.parse_attribute(true)
                } else if k == TokenType::Attribute {
                    self.parse_attribute(false)
                } else if k == TokenType::TagOpen {
                    self.parse_tag()
                } else if k == TokenType::TextNode {
                    self.parse_text_node()
                } else {
                    self.parse_interpolation_node()
                };
                match child_r {
                    Ok(child) => {
                        let ghost cv = child@;
                        node.add_child(child);
                        proof {
                            assert(parse_children_toks(cur) == (match parse_children_toks(
                                self.toks(),
                            ) {
                                Ok((more, rest)) => Ok::<
                                    (Seq<NodeView>, Seq<TokenView>),
                                    ParserErrorView,
                                >((seq![cv] + more, rest)),
                                Err(e) => Err::<(Seq<NodeView>, Seq<TokenView>), ParserErrorView>(
                                    e,
                                ),
                            }));
                            if parse_children_toks(self.toks()) is Ok {
                                let more = parse_children_toks(self.toks())->Ok_0.0;
                                assert(children_before + (seq![cv] + more) =~= (
                                children_before.push(cv) + more));
                            }
                        }
                    },
                    Err(e) => {
                        return Err(e);
                    },
                }
            } else {
                break ;
            }
        }
        proof {
            assert(parse_children_toks(self.toks()) == Ok::<
                (Seq<NodeView>, Seq<TokenView>),
                ParserErrorView,
            >((Seq::<NodeView>::empty(), self.toks())));
            assert(node@.children + Seq::<NodeView>::empty() =~= node@.children);
        }
        let closing = match self.expect(TokenType::TagClose) {
            Ok(t) => t,
            Err(e) => {
                return Err(e);
            },
        };
        let matches_name: bool = match (&closing.value, &open_tag.value) {
            (Some(a), Some(b)) => a.eq(b),
            (None, None) => true,
            _ => false,
        };
        if !matches_name {
            let found = match closing.value {
                Some(s) => s,
                None => String::new(),
            };
            let expected = match open_tag.value {
                Some(s) => s,
                None => String::new(),
            };
            return Err(ParserError::UnmatchingClosing(found, expected));
        }
        Ok(node)
    }

    /// The whole token sequence as a tree: a `Root` holding the top-level
    /// tags and text, or the first parse error.
    #[verifier::spinoff_prover]
    #[verifier::rlimit(100)]
    #[verifier::loop_isolation(false)]
    pub fn parse(&mut self) -> (r: Result<Node, ParserError>)
        requires
            old(self).wf(),
        ensures
            (match (r, parse_toks(old(self).toks())) {
                (Ok(n), Ok(nv)) => n@ == nv,
                (Err(e), Err(ev)) => e@ == ev,
                _ => false,
            }),
    {
        let ghost t0 = old(self).toks();
        let mut root = Node::new(NodeType::Root);
        loop
            invariant
                self.wf(),
                self.toks().len() <= t0.len(),
                root@.node_type == NodeTypeView::Root,
                (match parse_items_toks(self.toks()) {
                    Ok(more) => parse_items_toks(t0) == Ok::<Seq<NodeView>, ParserErrorView>(
                        root@.children + more,
                    ),
                    Err(e) => parse_items_toks(t0) == Err::<Seq<NodeView>, ParserErrorView>(e),
                }),
            decreases self.toks().len(),
        {
            let kind_opt: Option<TokenType> = match self.peek() {
                Some(t) => Some(t.token_type),
                None => None,
            };
            let k = match kind_opt {
                Some(k) => k,
                None => {
                    break ;
                },
            };
            let ghost cur = self.toks();
            let ghost children_before = root@.children;
            if k == TokenType::TagOpen {
                match self.parse_tag() {
                    Ok(child) => {
                        let ghost cv = child@;
                        root.add_child(child);
                        proof {
                            if parse_items_toks(self.toks()) is Ok {
                                let more = parse_items_toks(self.toks())->Ok_0;
                                assert(children_before + (seq![cv] + more) =~= (
                                children_before.push(cv) + more));
                            }
                        }
                    },
                    Err(e) => {
                        return Err(e);
                    },
                }
            } else if k == TokenType::TextNode {
                match self.parse_text_node() {
                    Ok(child) => {
                        let ghost cv = child@;
                        root.add_child(child);
                        proof {
                            if parse_items_toks(self.toks()) is Ok {
                                let more = parse_items_toks(self.toks())->Ok_0;
                                assert(children_before + (seq![cv] + more) =~= (
                                children_before.push(cv) + more));
                            }
                        }
                    },
                    Err(e) => {
                        return Err(e);
                    },
                }
            } else {
                let token = self.next().unwrap();
                return Err(ParserError::UnexpectedToken(token));
            }
        }
        proof {
            assert(root@.children + Seq::<NodeView>::empty() =~= root@.children);
        }
        Ok(root)
    }
}

} // verus!
