//! The scanner: one left-to-right pass over the template text that produces
//! the ordered token sequence, tracking whether it stands inside a tag or
//! between tags.

use vstd::prelude::*;

use crate::chars::ascii_alnum;
use crate::chars::is_ascii_alnum;
use crate::chars::is_name_char;
use crate::chars::is_whitespace_char;
use crate::token::colon_at;
use crate::token::lemma_token_views_push;
use crate::token::token_views;
use crate::token::valued;
use crate::token::Token;
use crate::token::TokenType;
use crate::token::TokenView;

verus! {

/// Where the scanner stands: inside a tag's attribute list, or between tags.
#[derive(Clone, Copy, Debug, PartialEq, Eq, Structural)]
pub enum ScannerContext {
    InTag,
    BetweenTags,
}

/// A typed scanning failure.
#[derive(Clone, Copy, Debug, PartialEq, Eq, Structural)]
pub enum ScannerError {
    /// A character that the grammar forbids at its position.
    UnexpectedCharacter(char, usize),
    /// The input ended while still inside a tag.
    UnexpectedEof(usize),
}

/// Offsets saturate at the largest address instead of wrapping.
pub open spec fn sat_add(a: int, b: int) -> int {
    if a + b > usize::MAX as int {
        usize::MAX as int
    } else {
        a + b
    }
}

/// Adds two offsets, saturating at the largest address.
pub fn pos_add(a: usize, b: usize) -> (r: usize)
    ensures
        r as int == sat_add(a as int, b as int),
{
    if a <= usize::MAX - b {
        a + b
    } else {
        usize::MAX
    }
}

/// The first index at or after `i` that does not hold whitespace.
pub open spec fn ws_end(s: Seq<char>, i: int) -> int
    decreases s.len() - i,
{
    if i < 0 || i >= s.len() {
        i
    } else if is_whitespace_char(s[i]) {
        ws_end(s, i + 1)
    } else {
        i
    }
}

/// The first index at or after `i` that does not hold a name character.
pub open spec fn name_end(s: Seq<char>, i: int) -> int
    decreases s.len() - i,
{
    if i < 0 || i >= s.len() {
        i
    } else if is_name_char(s[i]) {
        name_end(s, i + 1)
    } else {
        i
    }
}

/// The first index at or after `i` that holds `stop`, or the length.
pub open spec fn until_end(s: Seq<char>, i: int, stop: char) -> int
    decreases s.len() - i,
{
    if i < 0 || i >= s.len() {
        i
    } else if s[i] == stop {
        i
    } else {
        until_end(s, i + 1, stop)
    }
}

pub broadcast proof fn lemma_ws_end_bounds(s: Seq<char>, i: int)
    ensures
        0 <= i <= s.len() ==> i <= #[trigger] ws_end(s, i) <= s.len(),
    decreases s.len() - i,
{
    if 0 <= i && i < s.len() && is_whitespace_char(s[i]) {
        lemma_ws_end_bounds(s, i + 1);
    }
}

pub broadcast proof fn lemma_name_end_bounds(s: Seq<char>, i: int)
    ensures
        0 <= i <= s.len() ==> i <= #[trigger] name_end(s, i) <= s.len(),
    decreases s.len() - i,
{
    if 0 <= i && i < s.len() && is_name_char(s[i]) {
        lemma_name_end_bounds(s, i + 1);
    }
}

pub broadcast proof fn lemma_until_end_bounds(s: Seq<char>, i: int, stop: char)
    ensures
        0 <= i <= s.len() ==> i <= #[trigger] until_end(s, i, stop) <= s.len(),
    decreases s.len() - i,
{
    if 0 <= i && i < s.len() && s[i] != stop {
        lemma_until_end_bounds(s, i + 1, stop);
    }
}

/// The text with its leading whitespace removed.
pub open spec fn lstrip(s: Seq<char>) -> Seq<char>
    decreases s.len(),
{
    if s.len() > 0 && is_whitespace_char(s[0]) {
        lstrip(s.drop_first())
    } else {
        s
    }
}

/// The text with its trailing whitespace removed.
pub open spec fn rstrip(s: Seq<char>) -> Seq<char>
    decreases s.len(),
{
    if s.len() > 0 && is_whitespace_char(s[s.len() - 1]) {
        rstrip(s.drop_last())
    } else {
        s
    }
}

/// The text with whitespace removed on both sides.
pub open spec fn strip(s: Seq<char>) -> Seq<char> {
    rstrip(lstrip(s))
}

pub broadcast proof fn lemma_lstrip_len(s: Seq<char>)
    ensures
        #[trigger] lstrip(s).len() <= s.len(),
    decreases s.len(),
{
    if s.len() > 0 && is_whitespace_char(s[0]) {
        lemma_lstrip_len(s.drop_first());
    }
}

pub broadcast proof fn lemma_rstrip_len(s: Seq<char>)
    ensures
        #[trigger] rstrip(s).len() <= s.len(),
    decreases s.len(),
{
    if s.len() > 0 && is_whitespace_char(s[s.len() - 1]) {
        lemma_rstrip_len(s.drop_last());
    }
}

/// Two adjacent copies of `c` start at index `i`.
pub open spec fn pair_at(s: Seq<char>, i: int, c: char) -> bool {
    0 <= i && i + 2 <= s.len() && s[i] == c && s[i + 1] == c
}

/// The first index at or after `from` where `c` doubles, or -1.
pub open spec fn find_pair(s: Seq<char>, from: int, c: char) -> int
    decreases s.len() - from,
{
    if from + 2 > s.len() {
        -1
    } else if pair_at(s, from, c) {
        from
    } else {
        find_pair(s, from + 1, c)
    }
}

/// The last index at or before `i` where `c` doubles, or -1.
pub open spec fn rfind_pair_from(s: Seq<char>, i: int, c: char) -> int
    decreases i + 1,
{
    if i < 0 {
        -1
    } else if pair_at(s, i, c) {
        i
    } else {
        rfind_pair_from(s, i - 1, c)
    }
}

/// The last index where `c` doubles, or -1.
pub open spec fn rfind_pair(s: Seq<char>, c: char) -> int {
    rfind_pair_from(s, s.len() - 2, c)
}

/// How many non-overlapping doubled occurrences of `c` appear at or after
/// `from`, counted greedily from the left.
pub open spec fn count_pairs(s: Seq<char>, from: int, c: char) -> nat
    decreases s.len() - from,
{
    if from + 2 > s.len() {
        0
    } else if pair_at(s, from, c) {
        count_pairs(s, from + 2, c) + 1
    } else {
        count_pairs(s, from + 1, c)
    }
}

/// Whether the text holds both a doubled `{` and a doubled `}`.
pub open spec fn has_braces(s: Seq<char>) -> bool {
    find_pair(s, 0, '{') >= 0 && find_pair(s, 0, '}') >= 0
}

pub broadcast proof fn lemma_find_pair(s: Seq<char>, from: int, c: char)
    ensures
        #[trigger] find_pair(s, from, c) >= 0 ==> from <= find_pair(s, from, c) && pair_at(
            s,
            find_pair(s, from, c),
            c,
        ),
    decreases s.len() - from,
{
    if from + 2 <= s.len() && !pair_at(s, from, c) {
        lemma_find_pair(s, from + 1, c);
    }
}

pub broadcast proof fn lemma_rfind_pair_from(s: Seq<char>, i: int, c: char)
    ensures
        #[trigger] rfind_pair_from(s, i, c) >= 0 ==> rfind_pair_from(s, i, c) <= i && pair_at(
            s,
            rfind_pair_from(s, i, c),
            c,
        ),
    decreases i + 1,
{
    if i >= 0 && !pair_at(s, i, c) {
        lemma_rfind_pair_from(s, i - 1, c);
    }
}

/// One raw text blob between tags, split into `TextNode` and `Interpolation`
/// tokens. A blob without a doubled brace on each side is one text token.
/// Otherwise the interpolation boundary is chosen by comparing the counts of
/// doubled openers and closers; the text before the boundary (left-trimmed)
/// and the boundary content (trimmed) are split recursively when they still
/// hold a doubled pair of each side; an empty trimmed boundary content is an
/// error; the trailing text is emitted untrimmed although the decision to
/// recurse into or drop it looks at a right-trimmed copy. Token offsets are
/// best-effort. A boundary that the three count cases cannot place is an
/// error.
pub open spec fn split_text(begin: int, s: Seq<char>) -> Result<Seq<TokenView>, ScannerError>
    decreases s.len(),
    via split_text_decreases
{
    if !has_braces(s) {
        Ok(seq![valued(TokenType::TextNode, begin, s)])
    } else {
        let opens = count_pairs(s, 0, '{');
        let closes = count_pairs(s, 0, '}');
        let bi = if opens == closes {
            find_pair(s, 0, '{')
        } else {
            rfind_pair(s, '{')
        };
        let ei = if opens == closes {
            find_pair(s, 0, '}')
        } else if closes > opens && opens > 0 {
            rfind_pair(s, '}')
        } else if opens > closes && closes > 0 {
            find_pair(s, bi + 2, '}')
        } else {
            -1
        };
        if bi < 0 || bi + 2 > s.len() || ei < bi + 2 || ei + 2 > s.len() {
            Err(ScannerError::UnexpectedCharacter('}', begin as usize))
        } else {
            let before = lstrip(s.subrange(0, bi));
            let r1: Result<Seq<TokenView>, ScannerError> = if has_braces(before) {
                split_text(begin, before)
            } else if before.len() > 0 {
                Ok(seq![valued(TokenType::TextNode, begin, before)])
            } else {
                Ok(Seq::<TokenView>::empty())
            };
            let p1 = if !has_braces(before) && before.len() > 0 {
                sat_add(begin, before.len() as int)
            } else {
                begin
            };
            let inner = strip(s.subrange(bi + 2, ei));
            let p2 = sat_add(p1, inner.len() as int);
            let r2: Result<Seq<TokenView>, ScannerError> = if inner.len() == 0 {
                Err(ScannerError::UnexpectedCharacter('}', p2 as usize))
            } else if has_braces(inner) {
                split_text(p2, inner)
            } else {
                Ok(seq![valued(TokenType::Interpolation, p2, inner)])
            };
            let tail_full = s.subrange(ei + 2, s.len() as int);
            let tail = rstrip(tail_full);
            let r3: Result<Seq<TokenView>, ScannerError> = if has_braces(tail) {
                split_text(p2, tail)
            } else if tail.len() > 0 {
                Ok(seq![valued(TokenType::TextNode, p2, tail_full)])
            } else {
                Ok(Seq::<TokenView>::empty())
            };
            match (r1, r2, r3) {
                (Ok(a), Ok(b), Ok(c)) => Ok(a + b + c),
                (Err(e), _, _) => Err(e),
                (_, Err(e), _) => Err(e),
                (_, _, Err(e)) => Err(e),
            }
        }
    }
}

#[via_fn]
proof fn split_text_decreases(begin: int, s: Seq<char>) {
    broadcast use lemma_lstrip_len, lemma_rstrip_len;

}

/// The attribute production, started at index `i` inside a tag: skip
/// whitespace, collect a name, and take a quoted value when `=` and an
/// opening quote follow. Yields the emitted tokens and the index after them.
pub open spec fn attr_step(s: Seq<char>, i: int) -> (Seq<TokenView>, int) {
    let k = ws_end(s, i);
    let ne = name_end(s, k);
    let a = valued(TokenType::Attribute, i, s.subrange(k, ne));
    if ne < s.len() && s[ne] == '=' {
        let m = ws_end(s, ne + 1);
        if m < s.len() && s[m] == '"' {
            let ve = until_end(s, m + 1, '"');
            let j = if ve < s.len() {
                ve + 1
            } else {
                ve
            };
            (seq![a, valued(TokenType::AttributeValue, j, s.subrange(m + 1, ve))], j)
        } else {
            (seq![a], m)
        }
    } else {
        (seq![a], ne)
    }
}

/// The scanner's single pass, from index `i` in state (`ctx`, `tag`,
/// `pending_close`) with the tokens in `acc` already emitted. `tag` is the
/// name of the tag opened last; `pending_close` records a `/` seen before
/// `>` inside a tag, which synthesizes a closing token for `tag`. Ends in
/// an error when the input runs out inside a tag.
pub open spec fn scan_from(
    s: Seq<char>,
    i: int,
    ctx: ScannerContext,
    tag: Seq<char>,
    pending_close: bool,
    acc: Seq<TokenView>,
) -> Result<Seq<TokenView>, ScannerError>
    decreases s.len() - i,
    via scan_from_decreases
{
    if i < 0 || i >= s.len() {
        if ctx != ScannerContext::BetweenTags {
            Err(ScannerError::UnexpectedEof(i as usize))
        } else {
            Ok(acc)
        }
    } else {
        let c = s[i];
        if c == '<' {
            if ctx == ScannerContext::InTag {
                Err(ScannerError::UnexpectedCharacter('<', i as usize))
            } else if i + 1 < s.len() && s[i + 1] == '/' {
                let k = ws_end(s, i + 2);
                let ne = name_end(s, k);
                scan_from(
                    s,
                    ne,
                    ctx,
                    tag,
                    pending_close,
                    acc.push(valued(TokenType::TagClose, i, s.subrange(k, ne))),
                )
            } else {
                let k = ws_end(s, i + 1);
                let ne = name_end(s, k);
                scan_from(
                    s,
                    ws_end(s, ne),
                    ScannerContext::InTag,
                    s.subrange(k, ne),
                    pending_close,
                    acc.push(valued(TokenType::TagOpen, i, s.subrange(k, ne))),
                )
            }
        } else if c == '/' {
            let p = ctx == ScannerContext::InTag && i + 1 < s.len() && s[i + 1] == '>';
            scan_from(s, i + 1, ctx, tag, pending_close || p, acc)
        } else if c == '>' {
            if ctx == ScannerContext::InTag {
                if pending_close {
                    scan_from(
                        s,
                        i + 1,
                        ScannerContext::BetweenTags,
                        Seq::<char>::empty(),
                        false,
                        acc.push(valued(TokenType::TagClose, i, tag)),
                    )
                } else {
                    scan_from(s, i + 1, ScannerContext::BetweenTags, tag, pending_close, acc)
                }
            } else {
                scan_from(s, i + 1, ctx, tag, pending_close, acc)
            }
        } else if ctx == ScannerContext::InTag && c == ':' {
            scan_from(s, i + 1, ctx, tag, pending_close, acc.push(colon_at(i)))
        } else if ctx == ScannerContext::InTag && is_ascii_alnum(c) {
            let st = attr_step(s, i);
            scan_from(s, st.1, ctx, tag, pending_close, acc + st.0)
        } else if ctx == ScannerContext::BetweenTags && (is_ascii_alnum(c) || c == ':' || c == '{') {
            match split_text(i, s.subrange(i, until_end(s, i, '<'))) {
                Ok(ts) => scan_from(s, until_end(s, i, '<'), ctx, tag, pending_close, acc + ts),
                Err(e) => Err(e),
            }
        } else {
            scan_from(s, i + 1, ctx, tag, pending_close, acc)
        }
    }
}

#[via_fn]
proof fn scan_from_decreases(
    s: Seq<char>,
    i: int,
    ctx: ScannerContext,
    tag: Seq<char>,
    pending_close: bool,
    acc: Seq<TokenView>,
) {
    broadcast use lemma_ws_end_bounds, lemma_name_end_bounds, lemma_until_end_bounds;

    if 0 <= i && i < s.len() {
        let c = s[i];
        if ctx == ScannerContext::InTag && is_ascii_alnum(c) {
            assert(!is_whitespace_char(c));
            assert(ws_end(s, i) == i);
            assert(is_name_char(c));
            assert(name_end(s, i) == name_end(s, i + 1));
        }
        if ctx == ScannerContext::BetweenTags && (is_ascii_alnum(c) || c == ':' || c == '{') {
            assert(c != '<');
            assert(until_end(s, i, '<') == until_end(s, i + 1, '<'));
        }
    }
}

/// What scanning a whole text yields: the token sequence of a single pass
/// started between tags, or the first scanning error.
pub open spec fn scan_spec(s: Seq<char>) -> Result<Seq<TokenView>, ScannerError> {
    scan_from(s, 0, ScannerContext::BetweenTags, Seq::<char>::empty(), false, Seq::<TokenView>::empty())
}

pub proof fn lemma_count_pairs_bound(s: Seq<char>, from: int, c: char)
    requires
        0 <= from <= s.len(),
    ensures
        2 * count_pairs(s, from, c) <= s.len() - from,
    decreases s.len() - from,
{
    if from + 2 <= s.len() {
        if pair_at(s, from, c) {
            lemma_count_pairs_bound(s, from + 2, c);
        } else {
            lemma_count_pairs_bound(s, from + 1, c);
        }
    }
}

/// A copy of the characters in `[from, to)`.
fn subvec(v: &Vec<char>, from: usize, to: usize) -> (r: Vec<char>)
    requires
        from <= to <= v@.len(),
    ensures
        r@ == v@.subrange(from as int, to as int),
{
    let mut r: Vec<char> = Vec::new();
    let mut i: usize = from;
    while i < to
        invariant
            from <= i <= to <= v@.len(),
            r@ == v@.subrange(from as int, i as int),
        decreases to - i,
    {
        r.push(v[i]);
        i = i + 1;
        proof {
            assert(v@.subrange(from as int, i as int) =~= v@.subrange(
                from as int,
                i as int - 1,
            ).push(v@[i as int - 1]));
        }
    }
    r
}

/// The characters collected into a `String`.
fn vec_to_string(v: &Vec<char>) -> (s: String)
    ensures
        s@ == v@,
{
    let mut s = String::new();
    let mut i: usize = 0;
    while i < v.len()
        invariant
            i <= v@.len(),
            s@ == v@.take(i as int),
        decreases v@.len() - i,
    {
        s.push(v[i]);
        i = i + 1;
        proof {
            assert(v@.take(i as int) =~= v@.take(i as int - 1).push(v@[i as int - 1]));
        }
    }
    proof {
        assert(v@.take(v@.len() as int) =~= v@);
    }
    s
}

/// The characters of a string slice, one by one.
fn chars_vec(s: &str) -> (v: Vec<char>)
    ensures
        v@ == s@,
{
    let n = s.unicode_len();
    let mut v: Vec<char> = Vec::new();
    let mut i: usize = 0;
    while i < n
        invariant
            i <= n,
            n == s@.len(),
            v@ == s@.take(i as int),
        decreases n - i,
    {
        v.push(s.get_char(i));
        i = i + 1;
        proof {
            assert(s@.take(i as int) =~= s@.take(i as int - 1).push(s@[i as int - 1]));
        }
    }
    proof {
        assert(s@.take(s@.len() as int) =~= s@);
    }
    v
}

/// A copy with leading whitespace removed.
fn trim_start_vec(v: &Vec<char>) -> (r: Vec<char>)
    ensures
        r@ == lstrip(v@),
{
    proof {
        assert(v@.skip(0) =~= v@);
    }
    let mut i: usize = 0;
    loop
        invariant
            i <= v@.len(),
            lstrip(v@) == lstrip(v@.skip(i as int)),
        ensures
            i <= v@.len(),
            lstrip(v@) == v@.skip(i as int),
        decreases v@.len() - i,
    {
        if i < v.len() {
            let c = v[i];
            if c.is_whitespace() {
                proof {
                    assert(v@.skip(i as int).drop_first() =~= v@.skip(i as int + 1));
                }
                i = i + 1;
            } else {
                break ;
            }
        } else {
            break ;
        }
    }
    let r = subvec(v, i, v.len());
    proof {
        assert(v@.subrange(i as int, v@.len() as int) =~= v@.skip(i as int));
    }
    r
}

/// A copy with trailing whitespace removed.
fn trim_end_vec(v: &Vec<char>) -> (r: Vec<char>)
    ensures
        r@ == rstrip(v@),
{
    proof {
        assert(v@.take(v@.len() as int) =~= v@);
    }
    let mut j: usize = v.len();
    loop
        invariant
            j <= v@.len(),
            rstrip(v@) == rstrip(v@.take(j as int)),
        ensures
            j <= v@.len(),
            rstrip(v@) == v@.take(j as int),
        decreases j,
    {
        if j > 0 {
            let c = v[j - 1];
            if c.is_whitespace() {
                proof {
                    assert(v@.take(j as int).drop_last() =~= v@.take(j as int - 1));
                }
                j = j - 1;
            } else {
                break ;
            }
        } else {
            break ;
        }
    }
    let r = subvec(v, 0, j);
    proof {
        assert(v@.subrange(0, j as int) =~= v@.take(j as int));
    }
    r
}

/// A copy with whitespace removed on both sides.
fn trim_vec(v: &Vec<char>) -> (r: Vec<char>)
    ensures
        r@ == strip(v@),
{
    let l = trim_start_vec(v);
    trim_end_vec(&l)
}

/// The first doubled occurrence of `c` at or after `from`, if any.
fn find_pair_vec(v: &Vec<char>, from: usize, c: char) -> (r: Option<usize>)
    requires
        from as int <= v@.len() + 2,
    ensures
        (match r {
            Some(j) => find_pair(v@, from as int, c) == j as int && j as int + 2 <= v@.len(),
            None => find_pair(v@, from as int, c) == -1,
        }),
{
    let mut i: usize = from;
    loop
        invariant
            from <= i,
            i <= v@.len() + 2,
            find_pair(v@, from as int, c) == find_pair(v@, i as int, c),
        decreases v@.len() + 2 - i,
    {
        if v.len() < 2 || i > v.len() - 2 {
            return None;
        }
        if v[i] == c && v[i + 1] == c {
            return Some(i);
        }
        proof {
            assert(find_pair(v@, i as int, c) == find_pair(v@, i as int + 1, c));
        }
        i = i + 1;
    }
}

/// The last doubled occurrence of `c`, if any.
fn rfind_pair_vec(v: &Vec<char>, c: char) -> (r: Option<usize>)
    ensures
        (match r {
            Some(j) => rfind_pair(v@, c) == j as int && j as int + 2 <= v@.len(),
            None => rfind_pair(v@, c) == -1,
        }),
{
    if v.len() < 2 {
        return None;
    }
    let n = v.len();
    let mut i: usize = n - 2;
    loop
        invariant
            n == v@.len(),
            i + 2 <= n,
            rfind_pair(v@, c) == rfind_pair_from(v@, i as int, c),
        decreases i + 1,
    {
        if v[i] == c && v[i + 1] == c {
            return Some(i);
        }
        if i == 0 {
            proof {
                assert(rfind_pair_from(v@, -1, c) == -1);
            }
            return None;
        }
        proof {
            assert(rfind_pair_from(v@, i as int, c) == rfind_pair_from(v@, i as int - 1, c));
        }
        i = i - 1;
    }
}

/// How many non-overlapping doubled occurrences of `c` the text holds.
fn count_pairs_vec(v: &Vec<char>, c: char) -> (n: usize)
    ensures
        n as nat == count_pairs(v@, 0, c),
{
    proof {
        lemma_count_pairs_bound(v@, 0, c);
    }
    let mut n: usize = 0;
    let mut i: usize = 0;
    loop
        invariant
            i <= v@.len(),
            n as nat + count_pairs(v@, i as int, c) == count_pairs(v@, 0, c),
            2 * count_pairs(v@, 0, c) <= v@.len(),
        decreases v@.len() + 2 - i,
    {
        if v.len() < 2 || i > v.len() - 2 {
            return n;
        }
        if v[i] == c && v[i + 1] == c {
            proof {
                assert(count_pairs(v@, i as int, c) == count_pairs(v@, i as int + 2, c) + 1);
            }
            n = n + 1;
            i = i + 2;
        } else {
            i = i + 1;
        }
    }
}

/// Whether the text holds both a doubled `{` and a doubled `}`, tested in
/// executable code.
fn has_braces_vec(v: &Vec<char>) -> (r: bool)
    ensures
        r == has_braces(v@),
{
    let o = find_pair_vec(v, 0, '{');
    let c = find_pair_vec(v, 0, '}');
    o.is_some() && c.is_some()
}

/// The scanner: it owns the text as characters, a cursor, the context, and
/// the tokens produced so far.
pub struct Scanner {
    pub chars: Vec<char>,
    pub position: usize,
    pub context: ScannerContext,
    pub tokens: Vec<Token>,
}

impl Scanner {
    /// The cursor never stands past the end of the text.
    pub open spec fn wf(self) -> bool {
        self.position <= self.chars@.len()
    }

    /// A scanner over the given text, ready to run once.
    pub fn new(input: String) -> (s: Scanner)
        ensures
            s.wf(),
            s.chars@ == input@,
            s.position == 0,
            s.context == ScannerContext::BetweenTags,
            s.tokens@ == Seq::<Token>::empty(),
    {
        let chars = chars_vec(input.as_str());
        Scanner { chars, position: 0, context: ScannerContext::BetweenTags, tokens: Vec::new() }
    }

    /// The next character, if any, without consuming it.
    pub fn peek(&self) -> (r: Option<char>)
        ensures
            r == (if self.position < self.chars@.len() {
                Some(self.chars@[self.position as int])
            } else {
                None::<char>
            }),
    {
        if self.position < self.chars.len() {
            Some(self.chars[self.position])
        } else {
            None
        }
    }

    /// Consumes and returns the next character, if any.
    pub fn next(&mut self) -> (r: Option<char>)
        ensures
            final(self).chars == old(self).chars,
            final(self).context == old(self).context,
            final(self).tokens == old(self).tokens,
            r == (if old(self).position < old(self).chars@.len() {
                Some(old(self).chars@[old(self).position as int])
            } else {
                None::<char>
            }),
            final(self).position == (if old(self).position < old(self).chars@.len() {
                old(self).position + 1
            } else {
                old(self).position as int
            }),
    {
        if self.position < self.chars.len() {
            let c = self.chars[self.position];
            self.position = self.position + 1;
            Some(c)
        } else {
            None
        }
    }

    /// Consumes whitespace up to the next non-whitespace character.
    pub fn skip_whitespace(&mut self)
        requires
            old(self).wf(),
        ensures
            final(self).wf(),
            final(self).chars == old(self).chars,
            final(self).context == old(self).context,
            final(self).tokens == old(self).tokens,
            final(self).position as int == ws_end(old(self).chars@, old(self).position as int),
    {
        let ghost s0 = *self;
        loop
            invariant
                self.wf(),
                self.chars == s0.chars,
                self.context == s0.context,
                self.tokens == s0.tokens,
                ws_end(self.chars@, self.position as int) == ws_end(s0.chars@, s0.position as int),
            ensures
                self.chars == s0.chars,
                self.context == s0.context,
                self.tokens == s0.tokens,
                self.position <= self.chars@.len(),
                self.position as int == ws_end(s0.chars@, s0.position as int),
            decreases self.chars@.len() - self.position,
        {
            if self.position < self.chars.len() {
                let c = self.chars[self.position];
                if c.is_whitespace() {
                    self.position = self.position + 1;
                } else {
                    break ;
                }
            } else {
                break ;
            }
        }
    }

    /// Collects a name of alphanumeric or `-` characters at the cursor.
    pub fn collect_name(&mut self) -> (name: String)
        requires
            old(self).wf(),
        ensures
            final(self).wf(),
            final(self).chars == old(self).chars,
            final(self).context == old(self).context,
            final(self).tokens == old(self).tokens,
            final(self).position as int == name_end(old(self).chars@, old(self).position as int),
            name@ == old(self).chars@.subrange(
                old(self).position as int,
                name_end(old(self).chars@, old(self).position as int),
            ),
    {
        let ghost s0 = *self;
        let mut name = String::new();
        loop
            invariant
                self.wf(),
                self.chars == s0.chars,
                self.context == s0.context,
                self.tokens == s0.tokens,
                s0.position <= self.position,
                name_end(self.chars@, self.position as int) == name_end(
                    s0.chars@,
                    s0.position as int,
                ),
                name@ == s0.chars@.subrange(s0.position as int, self.position as int),
            ensures
                self.chars == s0.chars,
                self.context == s0.context,
                self.tokens == s0.tokens,
                self.position <= self.chars@.len(),
                self.position as int == name_end(s0.chars@, s0.position as int),
                name@ == s0.chars@.subrange(s0.position as int, self.position as int),
            decreases self.chars@.len() - self.position,
        {
            if self.position < self.chars.len() {
                let c = self.chars[self.position];
                if c.is_alphanumeric() || c == '-' {
                    name.push(c);
                    self.position = self.position + 1;
                    proof {
                        assert(s0.chars@.subrange(s0.position as int, self.position as int)
                            =~= s0.chars@.subrange(
                            s0.position as int,
                            self.position as int - 1,
                        ).push(s0.chars@[self.position as int - 1]));
                    }
                } else {
                    break ;
                }
            } else {
                break ;
            }
        }
        name
    }

    /// Collects characters up to (not including) `stop` or the end.
    pub fn collect_until(&mut self, stop: char) -> (value: String)
        requires
            old(self).wf(),
        ensures
            final(self).wf(),
            final(self).chars == old(self).chars,
            final(self).context == old(self).context,
            final(self).tokens == old(self).tokens,
            final(self).position as int == until_end(
                old(self).chars@,
                old(self).position as int,
                stop,
            ),
            value@ == old(self).chars@.subrange(
                old(self).position as int,
                until_end(old(self).chars@, old(self).position as int, stop),
            ),
    {
        let ghost s0 = *self;
        let mut value = String::new();
        loop
            invariant
                self.wf(),
                self.chars == s0.chars,
                self.context == s0.context,
                self.tokens == s0.tokens,
                s0.position <= self.position,
                until_end(self.chars@, self.position as int, stop) == until_end(
                    s0.chars@,
                    s0.position as int,
                    stop,
                ),
                value@ == s0.chars@.subrange(s0.position as int, self.position as int),
            ensures
                self.chars == s0.chars,
                self.context == s0.context,
                self.tokens == s0.tokens,
                self.position <= self.chars@.len(),
                self.position as int == until_end(s0.chars@, s0.position as int, stop),
                value@ == s0.chars@.subrange(s0.position as int, self.position as int),
            decreases self.chars@.len() - self.position,
        {
            if self.position < self.chars.len() {
                let c = self.chars[self.position];
                if c == stop {
                    break ;
                }
                value.push(c);
                self.position = self.position + 1;
                proof {
                    assert(s0.chars@.subrange(s0.position as int, self.position as int)
                        =~= s0.chars@.subrange(s0.position as int, self.position as int - 1).push(
                        s0.chars@[self.position as int - 1],
                    ));
                }
            } else {
                break ;
            }
        }
        value
    }

    /// The attribute production: a name and, after `=` and an opening quote,
    /// a verbatim value up to the closing quote.
    pub fn scan_attribute(&mut self, position: usize) -> (r: Result<(), ScannerError>)
        requires
            old(self).wf(),
            position == old(self).position,
        ensures
            final(self).wf(),
            final(self).chars == old(self).chars,
            final(self).context == old(self).context,
            r == Ok::<(), ScannerError>(()),
            final(self).position as int == attr_step(
                old(self).chars@,
                old(self).position as int,
            ).1,
            token_views(final(self).tokens@) == token_views(old(self).tokens@) + attr_step(
                old(self).chars@,
                old(self).position as int,
            ).0,
    {
        broadcast use lemma_token_views_push;

        let ghost s = old(self).chars@;
        let ghost i = old(self).position as int;
        self.skip_whitespace();
        let attribute_name = self.collect_name();
        self.tokens.push(
            Token::new_with_value(TokenType::Attribute, position, attribute_name.as_str()),
        );
        let has_eq = match self.peek() {
            Some(c) => c == '=',
            None => false,
        };
        if has_eq {
            let _ = self.next();
            self.skip_whitespace();
            let has_quote = match self.peek() {
                Some(c) => c == '"',
                None => false,
            };
            if has_quote {
                let _ = self.next();
                let value = self.collect_until('"');
                let _ = self.next();
                self.tokens.push(
                    Token::new_with_value(TokenType::AttributeValue, self.position, value.as_str()),
                );
                proof {
                    assert(token_views(self.tokens@) =~= token_views(old(self).tokens@)
                        + attr_step(s, i).0);
                }
                return Ok(());
            }
        }
        proof {
            assert(token_views(self.tokens@) =~= token_views(old(self).tokens@) + attr_step(
                s,
                i,
            ).0);
        }
        Ok(())
    }

    /// Splits one text blob into text and interpolation tokens, pushing them.
    #[verifier::spinoff_prover]
    #[verifier::rlimit(100)]
    fn split_blob(&mut self, begin: usize, text: &Vec<char>) -> (r: Result<(), ScannerError>)
        requires
            old(self).wf(),
        ensures
            final(self).wf(),
            final(self).chars == old(self).chars,
            final(self).context == old(self).context,
            final(self).position == old(self).position,
            (match (r, split_text(begin as int, text@)) {
                (Ok(()), Ok(ts)) => token_views(final(self).tokens@) == token_views(
                    old(self).tokens@,
                ) + ts,
                (Err(e), Err(e2)) => e == e2,
                _ => false,
            }),
        decreases text@.len(),
    {
        broadcast use lemma_token_views_push, lemma_lstrip_len, lemma_rstrip_len;

        let ghost t = text@;
        if !has_braces_vec(text) {
            let w = vec_to_string(text);
            self.tokens.push(Token::new_with_value(TokenType::TextNode, begin, w.as_str()));
            proof {
                assert(token_views(self.tokens@) =~= token_views(old(self).tokens@) + seq![
                    valued(TokenType::TextNode, begin as int, t),
                ]);
            }
            return Ok(());
        }
        let tlen = text.len();
        let opens = count_pairs_vec(text, '{');
        let closes = count_pairs_vec(text, '}');
        let bi_o: Option<usize> = if opens == closes {
            find_pair_vec(text, 0, '{')
        } else {
            rfind_pair_vec(text, '{')
        };
        let ei_o: Option<usize> = if opens == closes {
            find_pair_vec(text, 0, '}')
        } else if closes > opens && opens > 0 {
            rfind_pair_vec(text, '}')
        } else if opens > closes && closes > 0 {
            match bi_o {
                Some(b) => find_pair_vec(text, b + 2, '}'),
                None => None,
            }
        } else {
            None
        };
        let (bi, ei) = match (bi_o, ei_o) {
            (Some(b), Some(e)) => (b, e),
            _ => {
                return Err(ScannerError::UnexpectedCharacter('}', begin));
            },
        };
        if ei < bi + 2 {
            return Err(ScannerError::UnexpectedCharacter('}', begin));
        }
        let ghost bi_s = if count_pairs(t, 0, '{') == count_pairs(t, 0, '}') {
            find_pair(t, 0, '{')
        } else {
            rfind_pair(t, '{')
        };
        proof {
            assert(bi_s == bi as int);
            assert(ei as int == (if count_pairs(t, 0, '{') == count_pairs(t, 0, '}') {
                find_pair(t, 0, '}')
            } else if count_pairs(t, 0, '}') > count_pairs(t, 0, '{') && count_pairs(t, 0, '{')
                > 0 {
                rfind_pair(t, '}')
            } else {
                find_pair(t, bi_s + 2, '}')
            }));
        }
        let before_full = subvec(text, 0, bi);
        let before = trim_start_vec(&before_full);
        let mut position = begin;
        if has_braces_vec(&before) {
            match self.split_blob(position, &before) {
                Ok(()) => {},
                Err(e) => {
                    return Err(e);
                },
            }
        } else if before.len() > 0 {
            let w = vec_to_string(&before);
            self.tokens.push(Token::new_with_value(TokenType::TextNode, position, w.as_str()));
            position = pos_add(position, before.len());
        }
        let inner_full = subvec(text, bi + 2, ei);
        let inner = trim_vec(&inner_full);
        position = pos_add(position, inner.len());
        if inner.len() == 0 {
            return Err(ScannerError::UnexpectedCharacter('}', position));
        }
        if has_braces_vec(&inner) {
            match self.split_blob(position, &inner) {
                Ok(()) => {},
                Err(e) => {
                    return Err(e);
                },
            }
        } else {
            let w = vec_to_string(&inner);
            self.tokens.push(Token::new_with_value(TokenType::Interpolation, position, w.as_str()));
        }
        let tail_full = subvec(text, ei + 2, text.len());
        let tail = trim_end_vec(&tail_full);
        if has_braces_vec(&tail) {
            match self.split_blob(position, &tail) {
                Ok(()) => {},
                Err(e) => {
                    return Err(e);
                },
            }
        } else if tail.len() > 0 {
            let w = vec_to_string(&tail_full);
            self.tokens.push(Token::new_with_value(TokenType::TextNode, position, w.as_str()));
        }
        proof {
            let ts = split_text(begin as int, t);
            assert(ts is Ok);
            assert(token_views(self.tokens@) =~= token_views(old(self).tokens@) + (match ts {
                Ok(x) => x,
                Err(_) => Seq::<TokenView>::empty(),
            }));
        }
        Ok(())
    }

    /// Splits one text blob, given as a string, into tokens.
    pub fn scan_text_node_from_string(&mut self, begin: usize, text_to_search: &str) -> (r: Result<
        (),
        ScannerError,
    >)
        requires
            old(self).wf(),
        ensures
            final(self).wf(),
            final(self).chars == old(self).chars,
            final(self).context == old(self).context,
            final(self).position == old(self).position,
            (match (r, split_text(begin as int, text_to_search@)) {
                (Ok(()), Ok(ts)) => token_views(final(self).tokens@) == token_views(
                    old(self).tokens@,
                ) + ts,
                (Err(e), Err(e2)) => e == e2,
                _ => false,
            }),
    {
        let v = chars_vec(text_to_search);
        self.split_blob(begin, &v)
    }

    /// One text blob between tags: collects up to the next `<` and splits it.
    pub fn scan_text_node(&mut self) -> (r: Result<(), ScannerError>)
        requires
            old(self).wf(),
        ensures
            final(self).wf(),
            final(self).chars == old(self).chars,
            final(self).context == old(self).context,
            final(self).position as int == until_end(
                old(self).chars@,
                old(self).position as int,
                '<',
            ),
            (match (r, split_text(
                old(self).position as int,
                old(self).chars@.subrange(
                    old(self).position as int,
                    until_end(old(self).chars@, old(self).position as int, '<'),
                ),
            )) {
                (Ok(()), Ok(ts)) => token_views(final(self).tokens@) == token_views(
                    old(self).tokens@,
                ) + ts,
                (Err(e), Err(e2)) => e == e2,
                _ => false,
            }),
    {
        let position = self.position;
        let value = self.collect_until('<');
        self.scan_text_node_from_string(position, value.as_str())
    }

    /// One full pass over the text: the ordered token sequence, or the first
    /// scanning error. The result is exactly what the single-pass model
    /// `scan_from` yields from the scanner's starting state.
    #[verifier::spinoff_prover]
    #[verifier::rlimit(100)]
    #[verifier::loop_isolation(false)]
    pub fn scan(&mut self) -> (r: Result<Vec<Token>, ScannerError>)
        requires
            old(self).wf(),
        ensures
            (match r {
                Ok(toks) => scan_from(
                    old(self).chars@,
                    old(self).position as int,
                    old(self).context,
                    Seq::<char>::empty(),
                    false,
                    token_views(old(self).tokens@),
                ) == Ok::<Seq<TokenView>, ScannerError>(token_views(toks@)),
                Err(e) => scan_from(
                    old(self).chars@,
                    old(self).position as int,
                    old(self).context,
                    Seq::<char>::empty(),
                    false,
                    token_views(old(self).tokens@),
                ) == Err::<Seq<TokenView>, ScannerError>(e),
            }),
    {
        broadcast use
            lemma_token_views_push,
            lemma_ws_end_bounds,
            lemma_name_end_bounds,
            lemma_until_end_bounds;

        let ghost s0 = *self;
        let mut tag = String::new();
        let mut append_closing = false;
        loop
            invariant
                self.wf(),
                self.chars == s0.chars,
                scan_from(
                    s0.chars@,
                    self.position as int,
                    self.context,
                    tag@,
                    append_closing,
                    token_views(self.tokens@),
                ) == scan_from(
                    s0.chars@,
                    s0.position as int,
                    s0.context,
                    Seq::<char>::empty(),
                    false,
                    token_views(s0.tokens@),
                ),
            decreases self.chars@.len() - self.position,
        {
            if self.position >= self.chars.len() {
                break ;
            }
            let ghost li = self.position as int;
            let ghost lctx = self.context;
            let ghost ltag = tag@;
            let ghost lapp = append_closing;
            let ghost lviews = token_views(self.tokens@);
            let position = self.position;
            let c = self.chars[self.position];
            if c == '<' {
                if self.context == ScannerContext::InTag {
                    proof {
                        assert(scan_from(s0.chars@, li, lctx, ltag, lapp, lviews)
                            == Err::<Seq<TokenView>, ScannerError>(
                            ScannerError::UnexpectedCharacter('<', li as usize),
                        ));
                    }
                    return Err(ScannerError::UnexpectedCharacter(c, position));
                }
                let _ = self.next();
                let is_close = match self.peek() {
                    Some(ch) => ch == '/',
                    None => false,
                };
                if is_close {
                    let _ = self.next();
                    self.skip_whitespace();
                    let tag_name = self.collect_name();
                    self.tokens.push(
                        Token::new_with_value(TokenType::TagClose, position, tag_name.as_str()),
                    );
                    proof {
                        assert(token_views(self.tokens@) =~= lviews.push(
                            valued(TokenType::TagClose, li, tag_name@),
                        ));
                        assert(scan_from(s0.chars@, li, lctx, ltag, lapp, lviews) == scan_from(
                            s0.chars@,
                            self.position as int,
                            self.context,
                            tag@,
                            append_closing,
                            token_views(self.tokens@),
                        ));
                    }
                } else {
                    self.skip_whitespace();
                    tag = self.collect_name();
                    self.tokens.push(
                        Token::new_with_value(TokenType::TagOpen, position, tag.as_str()),
                    );
                    self.skip_whitespace();
                    self.context = ScannerContext::InTag;
                    proof {
                        assert(token_views(self.tokens@) =~= lviews.push(
                            valued(TokenType::TagOpen, li, tag@),
                        ));
                        assert(scan_from(s0.chars@, li, lctx, ltag, lapp, lviews) == scan_from(
                            s0.chars@,
                            self.position as int,
                            self.context,
                            tag@,
                            append_closing,
                            token_views(self.tokens@),
                        ));
                    }
                }
            } else if c == '/' {
                let _ = self.next();
                if self.context == ScannerContext::InTag {
                    let is_gt = match self.peek() {
                        Some(ch) => ch == '>',
                        None => false,
                    };
                    if is_gt {
                        append_closing = true;
                    }
                }
                proof {
                    assert(scan_from(s0.chars@, li, lctx, ltag, lapp, lviews) == scan_from(
                        s0.chars@,
                        self.position as int,
                        self.context,
                        tag@,
                        append_closing,
                        token_views(self.tokens@),
                    ));
                }
            } else if c == '>' {
                let _ = self.next();
                if self.context == ScannerContext::InTag {
                    if append_closing {
                        self.tokens.push(
                            Token::new_with_value(TokenType::TagClose, position, tag.as_str()),
                        );
                        proof {
                            assert(token_views(self.tokens@) =~= lviews.push(
                                valued(TokenType::TagClose, li, ltag),
                            ));
                        }
                        append_closing = false;
                        tag = String::new();
                    }
                    self.context = ScannerContext::BetweenTags;
                }
                proof {
                    assert(scan_from(s0.chars@, li, lctx, ltag, lapp, lviews) == scan_from(
                        s0.chars@,
                        self.position as int,
                        self.context,
                        tag@,
                        append_closing,
                        token_views(self.tokens@),
                    ));
                }
            } else if self.context == ScannerContext::InTag && c == ':' {
                let _ = self.next();
                self.tokens.push(Token::new(TokenType::Colon, position));
                proof {
                    assert(token_views(self.tokens@) =~= lviews.push(colon_at(li)));
                    assert(scan_from(s0.chars@, li, lctx, ltag, lapp, lviews) == scan_from(
                        s0.chars@,
                        self.position as int,
                        self.context,
                        tag@,
                        append_closing,
                        token_views(self.tokens@),
                    ));
                }
            } else if self.context == ScannerContext::InTag && ascii_alnum(c) {
                let _ = self.scan_attribute(position);
                proof {
                    assert(!is_whitespace_char(c));
                    assert(ws_end(s0.chars@, li) == li);
                    assert(is_name_char(c));
                    assert(name_end(s0.chars@, li) == name_end(s0.chars@, li + 1));
                    assert(scan_from(s0.chars@, li, lctx, ltag, lapp, lviews) == scan_from(
                        s0.chars@,
                        self.position as int,
                        self.context,
                        tag@,
                        append_closing,
                        token_views(self.tokens@),
                    ));
                }
            } else if self.context == ScannerContext::BetweenTags && (ascii_alnum(c) || c == ':'
                || c == '{') {
                let res = self.scan_text_node();
                proof {
                    assert(c != '<');
                    assert(until_end(s0.chars@, li, '<') == until_end(s0.chars@, li + 1, '<'));
                }
                match res {
                    Ok(_) => {
                        proof {
                            assert(scan_from(s0.chars@, li, lctx, ltag, lapp, lviews) == scan_from(
                                s0.chars@,
                                self.position as int,
                                self.context,
                                tag@,
                                append_closing,
                                token_views(self.tokens@),
                            ));
                        }
                    },
                    Err(e) => {
                        proof {
                            assert(scan_from(s0.chars@, li, lctx, ltag, lapp, lviews)
                                == Err::<Seq<TokenView>, ScannerError>(e));
                        }
                        return Err(e);
                    },
                }
            } else {
                let _ = self.next();
                proof {
                    assert(scan_from(s0.chars@, li, lctx, ltag, lapp, lviews) == scan_from(
                        s0.chars@,
                        self.position as int,
                        self.context,
                        tag@,
                        append_closing,
                        token_views(self.tokens@),
                    ));
                }
            }
        }
        if self.context != ScannerContext::BetweenTags {
            proof {
                assert(scan_from(
                    s0.chars@,
                    self.position as int,
                    self.context,
                    tag@,
                    append_closing,
                    token_views(self.tokens@),
                ) == Err::<Seq<TokenView>, ScannerError>(
                    ScannerError::UnexpectedEof(self.position),
                ));
            }
            return Err(ScannerError::UnexpectedEof(self.position));
        }
        proof {
            assert(scan_from(
                s0.chars@,
                self.position as int,
                self.context,
                tag@,
                append_closing,
                token_views(self.tokens@),
            ) == Ok::<Seq<TokenView>, ScannerError>(token_views(self.tokens@)));
        }
        let mut out: Vec<Token> = Vec::new();
        core::mem::swap(&mut out, &mut self.tokens);
        Ok(out)
    }
}

} // verus!
