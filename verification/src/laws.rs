//! Properties that hold across the scanner and the parser, stated and
//! proved over their models.

use vstd::prelude::*;

use crate::parser::parse_attribute_toks;
use crate::parser::parse_children_toks;
use crate::parser::parse_items_toks;
use crate::parser::parse_tag_toks;
use crate::parser::parse_toks;
use crate::parser::starts_child;
use crate::chars::is_ascii_alnum;
use crate::chars::is_name_char;
use crate::chars::is_whitespace_char;
use crate::scanner::attr_step;
use crate::scanner::count_pairs;
use crate::scanner::find_pair;
use crate::scanner::has_braces;
use crate::scanner::lemma_lstrip_len;
use crate::scanner::lemma_name_end_bounds;
use crate::scanner::lemma_rstrip_len;
use crate::scanner::lemma_until_end_bounds;
use crate::scanner::lemma_ws_end_bounds;
use crate::scanner::lstrip;
use crate::scanner::name_end;
use crate::scanner::rfind_pair;
use crate::scanner::rstrip;
use crate::scanner::sat_add;
use crate::scanner::scan_from;
use crate::scanner::scan_spec;
use crate::scanner::split_text;
use crate::scanner::strip;
use crate::scanner::until_end;
use crate::scanner::ws_end;
use crate::scanner::ScannerContext;
use crate::scanner::ScannerError;
use crate::token::colon_at;
use crate::token::valued;
use crate::token::wf_token;
use crate::token::wf_tokens;
use crate::token::TokenType;
use crate::token::TokenView;

verus! {

/// The nesting discipline run over a token sequence from a given stack of
/// open tag names: the stack that remains, or nothing when a closing name
/// fails to match the most recently opened tag.
pub open spec fn nests_from(ts: Seq<TokenView>, stack: Seq<Seq<char>>) -> Option<Seq<Seq<char>>>
    decreases ts.len(),
{
    if ts.len() == 0 {
        Some(stack)
    } else if ts[0].kind == TokenType::TagOpen {
        nests_from(ts.skip(1), stack.push(ts[0].val.unwrap()))
    } else if ts[0].kind == TokenType::TagClose {
        if stack.len() > 0 && stack.last() == ts[0].val.unwrap() {
            nests_from(ts.skip(1), stack.drop_last())
        } else {
            None
        }
    } else {
        nests_from(ts.skip(1), stack)
    }
}

/// Tags balance: every closing name matches the most recently opened
/// unclosed tag, in LIFO order, and every opened tag is closed.
pub open spec fn well_nested(ts: Seq<TokenView>) -> bool {
    nests_from(ts, Seq::<Seq<char>>::empty()) == Some(Seq::<Seq<char>>::empty())
}

/// How many tokens of the given kind the sequence holds.
pub open spec fn count_kind(ts: Seq<TokenView>, kind: TokenType) -> nat
    decreases ts.len(),
{
    if ts.len() == 0 {
        0
    } else {
        count_kind(ts.skip(1), kind) + (if ts[0].kind == kind {
            1nat
        } else {
            0nat
        })
    }
}

proof fn lemma_attribute_nests(ts: Seq<TokenView>, is_bound: bool, stack: Seq<Seq<char>>)
    requires
        parse_attribute_toks(ts, is_bound) is Ok,
    ensures
        nests_from(ts, stack) == nests_from(parse_attribute_toks(ts, is_bound)->Ok_0.1, stack),
{
    let ts1 = if is_bound {
        ts.skip(1)
    } else {
        ts
    };
    if is_bound {
        assert(ts.len() > 0 && ts[0].kind == TokenType::Colon);
        assert(nests_from(ts, stack) == nests_from(ts1, stack));
    }
    assert(ts1.len() > 0 && ts1[0].kind == TokenType::Attribute);
    let ts2 = ts1.skip(1);
    assert(nests_from(ts1, stack) == nests_from(ts2, stack));
    if ts2.len() > 0 && ts2[0].kind == TokenType::AttributeValue {
        assert(nests_from(ts2, stack) == nests_from(ts2.skip(1), stack));
    }
}

proof fn lemma_tag_nests(ts: Seq<TokenView>, stack: Seq<Seq<char>>)
    requires
        parse_tag_toks(ts) is Ok,
        ts.len() > 0,
        ts[0].kind == TokenType::TagOpen,
    ensures
        nests_from(ts, stack) == nests_from(parse_tag_toks(ts)->Ok_0.1, stack),
    decreases ts.len(), 0int,
{
    let name = ts[0].val.unwrap();
    let children_r = parse_children_toks(ts.skip(1));
    assert(children_r is Ok);
    lemma_children_nest(ts.skip(1), stack.push(name));
    let rest = children_r->Ok_0.1;
    assert(rest.len() > 0);
    assert(rest[0].kind == TokenType::TagClose);
    assert(rest[0].val == ts[0].val);
    assert(nests_from(ts, stack) == nests_from(ts.skip(1), stack.push(name)));
    assert(stack.push(name).last() == name);
    assert(stack.push(name).drop_last() =~= stack);
    assert(nests_from(rest, stack.push(name)) == nests_from(rest.skip(1), stack));
    assert(parse_tag_toks(ts)->Ok_0.1 == rest.skip(1));
}

proof fn lemma_children_nest(ts: Seq<TokenView>, stack: Seq<Seq<char>>)
    requires
        parse_children_toks(ts) is Ok,
    ensures
        nests_from(ts, stack) == nests_from(parse_children_toks(ts)->Ok_0.1, stack),
    decreases ts.len(), 1int,
{
    if ts.len() == 0 || !starts_child(ts[0].kind) {
    } else {
        if ts[0].kind == TokenType::Colon {
            lemma_attribute_nests(ts, true, stack);
            lemma_children_nest(parse_attribute_toks(ts, true)->Ok_0.1, stack);
        } else if ts[0].kind == TokenType::Attribute {
            lemma_attribute_nests(ts, false, stack);
            lemma_children_nest(parse_attribute_toks(ts, false)->Ok_0.1, stack);
        } else if ts[0].kind == TokenType::TagOpen {
            lemma_tag_nests(ts, stack);
            lemma_children_nest(parse_tag_toks(ts)->Ok_0.1, stack);
        } else {
            lemma_children_nest(ts.skip(1), stack);
        }
    }
}

proof fn lemma_items_nest(ts: Seq<TokenView>, stack: Seq<Seq<char>>)
    requires
        parse_items_toks(ts) is Ok,
    ensures
        nests_from(ts, stack) == Some(stack),
    decreases ts.len(), 2int,
{
    if ts.len() == 0 {
    } else if ts[0].kind == TokenType::TagOpen {
        lemma_tag_nests(ts, stack);
        lemma_items_nest(parse_tag_toks(ts)->Ok_0.1, stack);
    } else {
        lemma_items_nest(ts.skip(1), stack);
    }
}

proof fn lemma_nests_counts(ts: Seq<TokenView>, stack: Seq<Seq<char>>)
    requires
        nests_from(ts, stack) is Some,
    ensures
        count_kind(ts, TokenType::TagOpen) + stack.len() == count_kind(ts, TokenType::TagClose)
            + nests_from(ts, stack)->0.len(),
    decreases ts.len(),
{
    if ts.len() == 0 {
    } else if ts[0].kind == TokenType::TagOpen {
        assert(nests_from(ts, stack) == nests_from(ts.skip(1), stack.push(ts[0].val.unwrap())));
        lemma_nests_counts(ts.skip(1), stack.push(ts[0].val.unwrap()));
        assert(stack.push(ts[0].val.unwrap()).len() == stack.len() + 1);
        assert(count_kind(ts, TokenType::TagOpen) == count_kind(ts.skip(1), TokenType::TagOpen)
            + 1);
        assert(count_kind(ts, TokenType::TagClose) == count_kind(ts.skip(1), TokenType::TagClose));
    } else if ts[0].kind == TokenType::TagClose {
        assert(stack.len() > 0);
        assert(nests_from(ts, stack) == nests_from(ts.skip(1), stack.drop_last()));
        lemma_nests_counts(ts.skip(1), stack.drop_last());
        assert(stack.drop_last().len() == stack.len() - 1);
        assert(count_kind(ts, TokenType::TagClose) == count_kind(ts.skip(1), TokenType::TagClose)
            + 1);
        assert(count_kind(ts, TokenType::TagOpen) == count_kind(ts.skip(1), TokenType::TagOpen));
    } else {
        assert(nests_from(ts, stack) == nests_from(ts.skip(1), stack));
        lemma_nests_counts(ts.skip(1), stack);
        assert(count_kind(ts, TokenType::TagOpen) == count_kind(ts.skip(1), TokenType::TagOpen));
        assert(count_kind(ts, TokenType::TagClose) == count_kind(ts.skip(1), TokenType::TagClose));
    }
}

/// Every token sequence that the parser accepts balances its tags: each
/// closing name matches the most recently opened unclosed tag (LIFO order),
/// every opened tag is closed, and the `TagOpen` count equals the
/// `TagClose` count.
pub proof fn lemma_parse_balanced(ts: Seq<TokenView>)
    requires
        parse_toks(ts) is Ok,
    ensures
        well_nested(ts),
        count_kind(ts, TokenType::TagOpen) == count_kind(ts, TokenType::TagClose),
{
    lemma_items_nest(ts, Seq::<Seq<char>>::empty());
    lemma_nests_counts(ts, Seq::<Seq<char>>::empty());
}

/// For all well-formed input — text whose scan and parse both succeed — the
/// scanned token sequence balances its tags: the `TagOpen` count equals the
/// `TagClose` count, and closing names match their opens in LIFO order.
pub proof fn lemma_well_formed_input_balanced(text: Seq<char>, ts: Seq<TokenView>)
    requires
        scan_spec(text) == Ok::<Seq<TokenView>, ScannerError>(ts),
        parse_toks(ts) is Ok,
    ensures
        well_nested(ts),
        count_kind(ts, TokenType::TagOpen) == count_kind(ts, TokenType::TagClose),
{
    lemma_parse_balanced(ts);
}

proof fn lemma_wf_concat(a: Seq<TokenView>, b: Seq<TokenView>)
    requires
        wf_tokens(a),
        wf_tokens(b),
    ensures
        wf_tokens(a + b),
{
    assert forall|i: int| 0 <= i < (a + b).len() implies wf_token(#[trigger] (a + b)[i]) by {
        if i < a.len() {
            assert((a + b)[i] == a[i]);
        } else {
            assert((a + b)[i] == b[i - a.len()]);
        }
    }
}

proof fn lemma_split_text_wf(begin: int, s: Seq<char>)
    ensures
        split_text(begin, s) is Ok ==> wf_tokens(split_text(begin, s)->Ok_0),
    decreases s.len(),
{
    broadcast use lemma_lstrip_len, lemma_rstrip_len;

    if split_text(begin, s) is Ok {
        let ts = split_text(begin, s)->Ok_0;
        if !has_braces(s) {
            assert(wf_tokens(ts));
        } else {
            let r = split_text(begin, s);
            assert(r is Ok);
            // replay the three parts and combine
            let bi = if count_pairs(s, 0, '{') == count_pairs(
                s,
                0,
                '}',
            ) {
                find_pair(s, 0, '{')
            } else {
                rfind_pair(s, '{')
            };
            let before = lstrip(s.subrange(0, bi));
            lemma_split_text_wf(begin, before);
            let ei = if count_pairs(s, 0, '{') == count_pairs(
                s,
                0,
                '}',
            ) {
                find_pair(s, 0, '}')
            } else if count_pairs(s, 0, '}') > count_pairs(
                s,
                0,
                '{',
            ) && count_pairs(s, 0, '{') > 0 {
                rfind_pair(s, '}')
            } else if count_pairs(s, 0, '{') > count_pairs(
                s,
                0,
                '}',
            ) && count_pairs(s, 0, '}') > 0 {
                find_pair(s, bi + 2, '}')
            } else {
                -1
            };
            let inner = strip(s.subrange(bi + 2, ei));
            let tail = rstrip(s.subrange(ei + 2, s.len() as int));
            let p1 = if !has_braces(before) && before.len() > 0 {
                sat_add(begin, before.len() as int)
            } else {
                begin
            };
            let p2 = sat_add(p1, inner.len() as int);
            lemma_split_text_wf(p2, inner);
            lemma_split_text_wf(p2, tail);
            let tail_full = s.subrange(ei + 2, s.len() as int);
            let a = if has_braces(before) {
                split_text(begin, before)->Ok_0
            } else if before.len() > 0 {
                seq![valued(TokenType::TextNode, begin, before)]
            } else {
                Seq::<TokenView>::empty()
            };
            let b = if has_braces(inner) {
                split_text(p2, inner)->Ok_0
            } else {
                seq![valued(TokenType::Interpolation, p2, inner)]
            };
            let c = if has_braces(tail) {
                split_text(p2, tail)->Ok_0
            } else if tail.len() > 0 {
                seq![valued(TokenType::TextNode, p2, tail_full)]
            } else {
                Seq::<TokenView>::empty()
            };
            assert(wf_tokens(a));
            assert(wf_tokens(b));
            assert(wf_tokens(c));
            lemma_wf_concat(a, b);
            lemma_wf_concat(a + b, c);
            assert(ts == a + b + c);
        }
    }
}

proof fn lemma_scan_from_wf(
    s: Seq<char>,
    i: int,
    ctx: ScannerContext,
    tag: Seq<char>,
    pending_close: bool,
    acc: Seq<TokenView>,
)
    requires
        wf_tokens(acc),
    ensures
        scan_from(s, i, ctx, tag, pending_close, acc) is Ok ==> wf_tokens(
            scan_from(s, i, ctx, tag, pending_close, acc)->Ok_0,
        ),
    decreases s.len() - i,
{
    broadcast use lemma_ws_end_bounds, lemma_name_end_bounds, lemma_until_end_bounds;

    if i < 0 || i >= s.len() {
    } else {
        let c = s[i];
        let in_tag = ScannerContext::InTag;
        let between = ScannerContext::BetweenTags;
        if c == '<' {
            if ctx == in_tag {
            } else if i + 1 < s.len() && s[i + 1] == '/' {
                let k = ws_end(s, i + 2);
                let ne = name_end(s, k);
                let acc2 = acc.push(valued(TokenType::TagClose, i, s.subrange(k, ne)));
                assert(wf_tokens(acc2));
                lemma_scan_from_wf(s, ne, ctx, tag, pending_close, acc2);
            } else {
                let k = ws_end(s, i + 1);
                let ne = name_end(s, k);
                let acc2 = acc.push(valued(TokenType::TagOpen, i, s.subrange(k, ne)));
                assert(wf_tokens(acc2));
                lemma_scan_from_wf(s, ws_end(s, ne), in_tag, s.subrange(k, ne), pending_close, acc2);
            }
        } else if c == '/' {
            let p = ctx == in_tag && i + 1 < s.len() && s[i + 1] == '>';
            lemma_scan_from_wf(s, i + 1, ctx, tag, pending_close || p, acc);
        } else if c == '>' {
            if ctx == in_tag {
                if pending_close {
                    let acc2 = acc.push(valued(TokenType::TagClose, i, tag));
                    assert(wf_tokens(acc2));
                    lemma_scan_from_wf(s, i + 1, between, Seq::<char>::empty(), false, acc2);
                } else {
                    lemma_scan_from_wf(s, i + 1, between, tag, pending_close, acc);
                }
            } else {
                lemma_scan_from_wf(s, i + 1, ctx, tag, pending_close, acc);
            }
        } else if ctx == in_tag && c == ':' {
            let acc2 = acc.push(colon_at(i));
            assert(wf_tokens(acc2));
            lemma_scan_from_wf(s, i + 1, ctx, tag, pending_close, acc2);
        } else if ctx == in_tag && is_ascii_alnum(c) {
            let st = attr_step(s, i);
            assert(wf_tokens(st.0));
            lemma_wf_concat(acc, st.0);
            assert(!is_whitespace_char(c));
            assert(ws_end(s, i) == i);
            assert(is_name_char(c));
            assert(name_end(s, i) == name_end(s, i + 1));
            lemma_scan_from_wf(s, st.1, ctx, tag, pending_close, acc + st.0);
        } else if ctx == between && (is_ascii_alnum(c) || c == ':' || c == '{') {
            assert(c != '<');
            assert(until_end(s, i, '<') == until_end(s, i + 1, '<'));
            match split_text(i, s.subrange(i, until_end(s, i, '<'))) {
                Ok(ts) => {
                    lemma_split_text_wf(i, s.subrange(i, until_end(s, i, '<')));
                    lemma_wf_concat(acc, ts);
                    lemma_scan_from_wf(s, until_end(s, i, '<'), ctx, tag, pending_close, acc + ts);
                },
                Err(_) => {},
            }
        } else {
            lemma_scan_from_wf(s, i + 1, ctx, tag, pending_close, acc);
        }
    }
}

/// Every token sequence the scanner produces is well-formed: each token
/// carries a payload exactly when its kind asks for one. This is what the
/// parser assumes of its input.
pub proof fn lemma_scan_tokens_wf(text: Seq<char>, ts: Seq<TokenView>)
    requires
        scan_spec(text) == Ok::<Seq<TokenView>, ScannerError>(ts),
    ensures
        wf_tokens(ts),
{
    lemma_scan_from_wf(
        text,
        0,
        ScannerContext::BetweenTags,
        Seq::<char>::empty(),
        false,
        Seq::<TokenView>::empty(),
    );
}

proof fn lemma_ws_end_is(s: Seq<char>, i: int, j: int)
    requires
        0 <= i <= j <= s.len(),
        forall|k: int| i <= k < j ==> is_whitespace_char(#[trigger] s[k]),
        j == s.len() || !is_whitespace_char(s[j]),
    ensures
        ws_end(s, i) == j,
    decreases j - i,
{
    if i < j {
        lemma_ws_end_is(s, i + 1, j);
    }
}

proof fn lemma_scan_skips_whitespace(
    s: Seq<char>,
    i: int,
    j: int,
    tag: Seq<char>,
    pending_close: bool,
    acc: Seq<TokenView>,
)
    requires
        0 <= i <= j <= s.len(),
        forall|k: int| i <= k < j ==> is_whitespace_char(#[trigger] s[k]),
    ensures
        scan_from(s, i, ScannerContext::BetweenTags, tag, pending_close, acc) == scan_from(
            s,
            j,
            ScannerContext::BetweenTags,
            tag,
            pending_close,
            acc,
        ),
    decreases j - i,
{
    if i < j {
        assert(!is_ascii_alnum(s[i]));
        lemma_scan_skips_whitespace(s, i + 1, j, tag, pending_close, acc);
    }
}

proof fn lemma_name_end_is(s: Seq<char>, i: int, j: int)
    requires
        0 <= i <= j <= s.len(),
        forall|k: int| i <= k < j ==> is_name_char(#[trigger] s[k]),
        j == s.len() || !is_name_char(s[j]),
    ensures
        name_end(s, i) == j,
    decreases j - i,
{
    if i < j {
        lemma_name_end_is(s, i + 1, j);
    }
}

/// A self-closing tag scans to the same token sequence as an explicit
/// open-close pair with the same name: `<name/>` and `<name></name>` both
/// yield exactly one `TagOpen` and one `TagClose` for `name`, with the same
/// offsets.
pub proof fn lemma_self_close_equivalence(name: Seq<char>)
    requires
        name.len() > 0,
        forall|j: int|
            0 <= j < name.len() ==> is_name_char(#[trigger] name[j]) && !is_whitespace_char(
                name[j],
            ),
    ensures
        scan_spec(seq!['<'] + name + seq!['/', '>']) == Ok::<Seq<TokenView>, ScannerError>(
            seq![
                valued(TokenType::TagOpen, 0, name),
                valued(TokenType::TagClose, name.len() as int + 2, name),
            ],
        ),
        scan_spec(seq!['<'] + name + seq!['>', '<', '/'] + name + seq!['>']) == Ok::<
            Seq<TokenView>,
            ScannerError,
        >(
            seq![
                valued(TokenType::TagOpen, 0, name),
                valued(TokenType::TagClose, name.len() as int + 2, name),
            ],
        ),
        scan_spec(seq!['<'] + name + seq!['/', '>']) == scan_spec(
            seq!['<'] + name + seq!['>', '<', '/'] + name + seq!['>'],
        ),
{
    let n = name.len() as int;
    let s1 = seq!['<'] + name + seq!['/', '>'];
    let s2 = seq!['<'] + name + seq!['>', '<', '/'] + name + seq!['>'];
    let between = ScannerContext::BetweenTags;
    let in_tag = ScannerContext::InTag;
    let toks = seq![
        valued(TokenType::TagOpen, 0, name),
        valued(TokenType::TagClose, n + 2, name),
    ];
    assert(!is_name_char('/'));
    assert(!is_name_char('>'));
    assert(!is_name_char('<'));
    assert(!is_whitespace_char('/'));
    assert(!is_whitespace_char('>'));
    assert(!is_whitespace_char('<'));

    // the self-closing form
    assert(s1.len() == n + 3);
    assert(s1[0] == '<');
    assert forall|j: int| 0 <= j < n implies s1[1 + j] == #[trigger] name[j] by {}
    assert(s1[n + 1] == '/');
    assert(s1[n + 2] == '>');
    assert(s1[1] != '/');
    assert(ws_end(s1, 1) == 1);
    lemma_name_end_is(s1, 1, n + 1);
    assert(s1.subrange(1, n + 1) =~= name);
    assert(ws_end(s1, n + 1) == n + 1);
    let acc1 = Seq::<TokenView>::empty().push(valued(TokenType::TagOpen, 0, name));
    assert(scan_spec(s1) == scan_from(s1, n + 1, in_tag, name, false, acc1));
    assert(scan_from(s1, n + 1, in_tag, name, false, acc1) == scan_from(
        s1,
        n + 2,
        in_tag,
        name,
        true,
        acc1,
    ));
    assert(scan_from(s1, n + 2, in_tag, name, true, acc1) == scan_from(
        s1,
        n + 3,
        between,
        Seq::<char>::empty(),
        false,
        acc1.push(valued(TokenType::TagClose, n + 2, name)),
    ));
    assert(acc1.push(valued(TokenType::TagClose, n + 2, name)) =~= toks);
    assert(scan_spec(s1) == Ok::<Seq<TokenView>, ScannerError>(toks));

    // the explicit open-close form
    assert(s2.len() == 2 * n + 5);
    assert(s2[0] == '<');
    assert forall|j: int| 0 <= j < n implies s2[1 + j] == #[trigger] name[j] by {}
    assert(s2[n + 1] == '>');
    assert(s2[n + 2] == '<');
    assert(s2[n + 3] == '/');
    assert forall|j: int| 0 <= j < n implies s2[n + 4 + j] == #[trigger] name[j] by {}
    assert(s2[2 * n + 4] == '>');
    assert(s2[1] != '/');
    assert(ws_end(s2, 1) == 1);
    lemma_name_end_is(s2, 1, n + 1);
    assert(s2.subrange(1, n + 1) =~= name);
    assert(ws_end(s2, n + 1) == n + 1);
    assert(scan_spec(s2) == scan_from(s2, n + 1, in_tag, name, false, acc1));
    assert(scan_from(s2, n + 1, in_tag, name, false, acc1) == scan_from(
        s2,
        n + 2,
        between,
        name,
        false,
        acc1,
    ));
    assert(ws_end(s2, n + 4) == n + 4);
    lemma_name_end_is(s2, n + 4, 2 * n + 4);
    assert(s2.subrange(n + 4, 2 * n + 4) =~= name);
    assert(scan_from(s2, n + 2, between, name, false, acc1) == scan_from(
        s2,
        2 * n + 4,
        between,
        name,
        false,
        acc1.push(valued(TokenType::TagClose, n + 2, name)),
    ));
    assert(scan_from(s2, 2 * n + 4, between, name, false, toks) == scan_from(
        s2,
        2 * n + 5,
        between,
        name,
        false,
        toks,
    ));
    assert(scan_spec(s2) == Ok::<Seq<TokenView>, ScannerError>(toks));
}

/// A token sequence reduced to what each token is: its kind and its text,
/// without its offset.
pub open spec fn token_shapes(ts: Seq<TokenView>) -> Seq<(TokenType, Option<Seq<char>>)> {
    ts.map_values(|t: TokenView| (t.kind, t.val))
}

/// Whitespace around names is insignificant: a tag pair written with any
/// whitespace after the opening name and around the closing name scans to
/// the same token kinds and texts as the pair written without it.
#[verifier::spinoff_prover]
#[verifier::rlimit(100)]
pub proof fn lemma_whitespace_insignificant(
    name: Seq<char>,
    w1: Seq<char>,
    w2: Seq<char>,
    w3: Seq<char>,
)
    requires
        name.len() > 0,
        forall|j: int|
            0 <= j < name.len() ==> is_name_char(#[trigger] name[j]) && !is_whitespace_char(
                name[j],
            ),
        forall|j: int|
            0 <= j < w1.len() ==> is_whitespace_char(#[trigger] w1[j]) && !is_name_char(w1[j]),
        forall|j: int| 0 <= j < w2.len() ==> is_whitespace_char(#[trigger] w2[j]),
        forall|j: int|
            0 <= j < w3.len() ==> is_whitespace_char(#[trigger] w3[j]) && !is_name_char(w3[j]),
    ensures
        scan_spec(
            seq!['<'] + name + w1 + seq!['>', '<', '/'] + w2 + name + w3 + seq!['>'],
        ) matches Ok(spaced) && scan_spec(
            seq!['<'] + name + seq!['>', '<', '/'] + name + seq!['>'],
        ) matches Ok(tight) && token_shapes(spaced) == token_shapes(tight),
{
    let n = name.len() as int;
    let a = w1.len() as int;
    let b = w2.len() as int;
    let c = w3.len() as int;
    let s = seq!['<'] + name + w1 + seq!['>', '<', '/'] + w2 + name + w3 + seq!['>'];
    let between = ScannerContext::BetweenTags;
    let in_tag = ScannerContext::InTag;
    lemma_self_close_equivalence(name);

    assert(s.len() == 2 * n + a + b + c + 5);
    assert(s[0] == '<');
    assert forall|j: int| 0 <= j < n implies s[1 + j] == #[trigger] name[j] by {}
    assert forall|j: int| 0 <= j < a implies s[1 + n + j] == #[trigger] w1[j] by {}
    assert(s[1 + n + a] == '>');
    assert(s[2 + n + a] == '<');
    assert(s[3 + n + a] == '/');
    assert forall|j: int| 0 <= j < b implies s[4 + n + a + j] == #[trigger] w2[j] by {}
    assert forall|j: int| 0 <= j < n implies s[4 + n + a + b + j] == #[trigger] name[j] by {}
    assert forall|j: int| 0 <= j < c implies s[4 + 2 * n + a + b + j] == #[trigger] w3[j] by {}
    assert(s[4 + 2 * n + a + b + c] == '>');

    assert(s[1] != '/');
    assert(ws_end(s, 1) == 1);
    lemma_name_end_is(s, 1, n + 1);
    assert(s.subrange(1, n + 1) =~= name);
    lemma_ws_end_is(s, n + 1, n + 1 + a);
    let acc1 = Seq::<TokenView>::empty().push(valued(TokenType::TagOpen, 0, name));
    assert(scan_spec(s) == scan_from(s, n + 1 + a, in_tag, name, false, acc1));
    assert(scan_from(s, n + 1 + a, in_tag, name, false, acc1) == scan_from(
        s,
        n + 2 + a,
        between,
        name,
        false,
        acc1,
    ));
    lemma_ws_end_is(s, n + 4 + a, n + 4 + a + b);
    lemma_name_end_is(s, n + 4 + a + b, 2 * n + 4 + a + b);
    assert(s.subrange(n + 4 + a + b, 2 * n + 4 + a + b) =~= name);
    let toks = acc1.push(valued(TokenType::TagClose, n + 2 + a, name));
    assert(scan_from(s, n + 2 + a, between, name, false, acc1) == scan_from(
        s,
        2 * n + 4 + a + b,
        between,
        name,
        false,
        toks,
    ));
    lemma_scan_skips_whitespace(s, 2 * n + 4 + a + b, 2 * n + 4 + a + b + c, name, false, toks);
    assert(scan_from(s, 2 * n + 4 + a + b + c, between, name, false, toks) == scan_from(
        s,
        2 * n + 5 + a + b + c,
        between,
        name,
        false,
        toks,
    ));
    assert(scan_spec(s) == Ok::<Seq<TokenView>, ScannerError>(toks));
    let tight = seq![
        valued(TokenType::TagOpen, 0, name),
        valued(TokenType::TagClose, n + 2, name),
    ];
    assert(token_shapes(toks) =~= token_shapes(tight));
}

} // verus!
