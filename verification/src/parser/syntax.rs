//! Borrowed, structural views of the nodes of a parsed syntax tree.

use vstd::prelude::*;
use crate::lexer::{Token, TokenKind};
use crate::representation::{NodeId, SyntaxKind, SyntaxTree};
use crate::source::TextRange;
use crate::lexer;

verus! {

/// Whether a node of this kind is an operation.
pub open spec fn is_operation_kind(kind: SyntaxKind) -> bool {
    kind == SyntaxKind::Operation || kind == SyntaxKind::DialectOperation || kind
        == SyntaxKind::UnparsedCustomOperation
}

/// The children of `id`, or none for an unknown node.
pub open spec fn kids(tree: &SyntaxTree, id: NodeId) -> Seq<NodeId> {
    if tree.valid(id) {
        tree.spec_children(id.spec_index())
    } else {
        seq![]
    }
}

/// The first of `ids` whose kind is `kind`.
pub open spec fn first_of_kind(tree: &SyntaxTree, ids: Seq<NodeId>, kind: SyntaxKind) -> Option<NodeId>
    decreases ids.len(),
{
    if ids.len() == 0 {
        None
    } else if tree.spec_kind(ids[0].spec_index()) == kind {
        Some(ids[0])
    } else {
        first_of_kind(tree, ids.drop_first(), kind)
    }
}

/// Those of `ids` whose kind is `kind`, in order.
pub open spec fn of_kind(tree: &SyntaxTree, ids: Seq<NodeId>, kind: SyntaxKind) -> Seq<NodeId>
    decreases ids.len(),
{
    if ids.len() == 0 {
        seq![]
    } else {
        let rest = of_kind(tree, ids.drop_last(), kind);
        if tree.spec_kind(ids.last().spec_index()) == kind {
            rest.push(ids.last())
        } else {
            rest
        }
    }
}

/// The children of kind `kind` of each of `parents`, one parent after another.
pub open spec fn children_of_kinds(tree: &SyntaxTree, parents: Seq<NodeId>, kind: SyntaxKind) -> Seq<NodeId>
    decreases parents.len(),
{
    if parents.len() == 0 {
        seq![]
    } else {
        children_of_kinds(tree, parents.drop_last(), kind) + of_kind(tree, kids(tree, parents.last()), kind)
    }
}

/// The first child of kind `kind`.
pub fn child_of_kind(tree: &SyntaxTree, parent: NodeId, kind: SyntaxKind) -> (r: Option<NodeId>)
    ensures
        r == first_of_kind(tree, kids(tree, parent), kind),
        r matches Some(c) ==> tree.valid(c),
{
    let children = match tree.children(parent) {
        None => {
            return None;
        },
        Some(c) => c,
    };
    assert(children@.subrange(0, children@.len() as int) =~= children@);
    let mut k: usize = 0;
    while k < children.len()
        invariant
            k <= children@.len(),
            children@ == kids(tree, parent),
            forall|j: int| 0 <= j < children@.len() ==> tree.valid(#[trigger] children@[j]),
            first_of_kind(tree, children@, kind) == first_of_kind(tree, children@.subrange(k as int, children@.len() as int), kind),
        decreases children@.len() - k,
    {
        let id = children[k];
        let ghost rest = children@.subrange(k as int, children@.len() as int);
        assert(rest.drop_first() =~= children@.subrange(k + 1, children@.len() as int));
        if tree.kind(id) == Some(kind) {
            return Some(id);
        }
        k = k + 1;
    }
    None
}

/// The children of kind `kind`, in order.
pub fn children_of_kind(tree: &SyntaxTree, parent: NodeId, kind: SyntaxKind) -> (r: Vec<NodeId>)
    ensures
        r@ == of_kind(tree, kids(tree, parent), kind),
        forall|j: int| 0 <= j < r@.len() ==> tree.valid(#[trigger] r@[j]),
{
    let children = match tree.children(parent) {
        None => {
            return Vec::new();
        },
        Some(c) => c,
    };
    let mut result: Vec<NodeId> = Vec::new();
    let mut k: usize = 0;
    while k < children.len()
        invariant
            k <= children@.len(),
            children@ == kids(tree, parent),
            forall|j: int| 0 <= j < children@.len() ==> tree.valid(#[trigger] children@[j]),
            result@ == of_kind(tree, children@.subrange(0, k as int), kind),
            forall|j: int| 0 <= j < result@.len() ==> tree.valid(#[trigger] result@[j]),
        decreases children@.len() - k,
    {
        let id = children[k];
        assert(children@.subrange(0, k + 1).drop_last() =~= children@.subrange(0, k as int));
        if tree.kind(id) == Some(kind) {
            result.push(id);
        }
        k = k + 1;
    }
    assert(children@.subrange(0, k as int) =~= children@);
    result
}

/// The children of kind `kind` of each of `parents`, one parent after another.
pub fn children_of_kind_all(tree: &SyntaxTree, parents: &Vec<NodeId>, kind: SyntaxKind) -> (r: Vec<NodeId>)
    ensures
        r@ == children_of_kinds(tree, parents@, kind),
        forall|j: int| 0 <= j < r@.len() ==> tree.valid(#[trigger] r@[j]),
{
    let mut result: Vec<NodeId> = Vec::new();
    let mut k: usize = 0;
    while k < parents.len()
        invariant
            k <= parents@.len(),
            result@ == children_of_kinds(tree, parents@.subrange(0, k as int), kind),
            forall|j: int| 0 <= j < result@.len() ==> tree.valid(#[trigger] result@[j]),
        decreases parents@.len() - k,
    {
        let found = children_of_kind(tree, parents[k], kind);
        assert(parents@.subrange(0, k + 1).drop_last() =~= parents@.subrange(0, k as int));
        let ghost before = result@;
        let mut m: usize = 0;
        while m < found.len()
            invariant
                m <= found@.len(),
                result@ == before + found@.subrange(0, m as int),
                forall|j: int| 0 <= j < found@.len() ==> tree.valid(#[trigger] found@[j]),
                forall|j: int| 0 <= j < before.len() ==> tree.valid(#[trigger] before[j]),
            decreases found@.len() - m,
        {
            result.push(found[m]);
            m = m + 1;
            assert(result@ =~= before + found@.subrange(0, m as int));
        }
        assert(found@.subrange(0, m as int) =~= found@);
        k = k + 1;
    }
    assert(parents@.subrange(0, k as int) =~= parents@);
    result
}

// ---------------------------------------------------------------------------
// Searching the tokens of a node.

pub open spec fn is_trivia(kind: TokenKind) -> bool {
    kind == TokenKind::Whitespace || kind == TokenKind::LineComment
}

/// The closing delimiter that an opening one expects.
pub open spec fn close_for(kind: TokenKind) -> Option<TokenKind> {
    match kind {
        TokenKind::Less => Some(TokenKind::Greater),
        TokenKind::LParen => Some(TokenKind::RParen),
        TokenKind::LBrace => Some(TokenKind::RBrace),
        TokenKind::LBracket => Some(TokenKind::RBracket),
        _ => None,
    }
}

fn close_for_exec(kind: TokenKind) -> (r: Option<TokenKind>)
    ensures
        r == close_for(kind),
{
    match kind {
        TokenKind::Less => Some(TokenKind::Greater),
        TokenKind::LParen => Some(TokenKind::RParen),
        TokenKind::LBrace => Some(TokenKind::RBrace),
        TokenKind::LBracket => Some(TokenKind::RBracket),
        _ => None,
    }
}

fn is_trivia_exec(kind: TokenKind) -> (r: bool)
    ensures
        r == is_trivia(kind),
{
    kind == TokenKind::Whitespace || kind == TokenKind::LineComment
}

/// The first token at or after `i` that is not trivia.
pub open spec fn first_nontrivia_from(s: Seq<Token>, i: int) -> Option<int>
    decreases s.len() - i,
{
    if i < 0 || i >= s.len() {
        None
    } else if !is_trivia(s[i].spec_kind()) {
        Some(i)
    } else {
        first_nontrivia_from(s, i + 1)
    }
}

/// The first token at or after `i` of kind `kind`.
pub open spec fn first_kind_from(s: Seq<Token>, i: int, kind: TokenKind) -> Option<int>
    decreases s.len() - i,
{
    if i < 0 || i >= s.len() {
        None
    } else if s[i].spec_kind() == kind {
        Some(i)
    } else {
        first_kind_from(s, i + 1, kind)
    }
}

/// The last token before `j` of kind `kind`.
pub open spec fn last_kind_before(s: Seq<Token>, j: int, kind: TokenKind) -> Option<int>
    decreases j,
{
    if j <= 0 || j > s.len() {
        None
    } else if s[j - 1].spec_kind() == kind {
        Some(j - 1)
    } else {
        last_kind_before(s, j - 1, kind)
    }
}

/// The first token at or after `i` of kind `kind` that lies within `[lo, hi]`.
pub open spec fn first_kind_within(s: Seq<Token>, i: int, lo: int, hi: int, kind: TokenKind) -> Option<int>
    decreases s.len() - i,
{
    if i < 0 || i >= s.len() {
        None
    } else if s[i].spec_start() >= lo && s[i].spec_end() <= hi && s[i].spec_kind() == kind {
        Some(i)
    } else {
        first_kind_within(s, i + 1, lo, hi, kind)
    }
}

/// The last token before `j` that is not trivia and lies within `[lo, hi]`.
pub open spec fn last_nontrivia_within(s: Seq<Token>, j: int, lo: int, hi: int) -> Option<int>
    decreases j,
{
    if j <= 0 || j > s.len() {
        None
    } else if s[j - 1].spec_start() >= lo && s[j - 1].spec_end() <= hi && !is_trivia(
        s[j - 1].spec_kind(),
    ) {
        Some(j - 1)
    } else {
        last_nontrivia_within(s, j - 1, lo, hi)
    }
}

/// Where the delimiter that `stack` waits for closes, scanning from `i`.
pub open spec fn delimiter_close(s: Seq<Token>, i: int, stack: Seq<TokenKind>) -> Option<int>
    decreases s.len() - i,
{
    if i < 0 || i >= s.len() || stack.len() == 0 {
        None
    } else if stack.last() == s[i].spec_kind() {
        if stack.len() == 1 {
            Some(i)
        } else {
            delimiter_close(s, i + 1, stack.drop_last())
        }
    } else {
        match close_for(s[i].spec_kind()) {
            Some(expected) => delimiter_close(s, i + 1, stack.push(expected)),
            None => delimiter_close(s, i + 1, stack),
        }
    }
}

/// The bytes strictly inside the first `<...>` of the tokens.
pub open spec fn delimited_inner_bounds(s: Seq<Token>) -> Option<(int, int)> {
    match first_kind_from(s, 0, TokenKind::Less) {
        None => None,
        Some(open) => match delimiter_close(s, open + 1, seq![TokenKind::Greater]) {
            None => None,
            Some(close) => Some((s[open].spec_end(), s[close].spec_start())),
        },
    }
}

/// The bytes of the type after the last `:`, up to the last significant token.
pub open spec fn suffix_type_bounds(s: Seq<Token>) -> Option<(int, int)> {
    match last_kind_before(s, s.len() as int, TokenKind::Colon) {
        None => None,
        Some(colon) => match first_nontrivia_from(s, colon + 1) {
            None => None,
            Some(first) => match last_nontrivia_within(s, s.len() as int, 0, u32::MAX as int) {
                None => None,
                Some(last) => Some((s[first].spec_start(), s[last].spec_end())),
            },
        },
    }
}

/// Whether `r` is the range with the given bounds: `None` when there are none or
/// they are out of order.
pub open spec fn range_is(r: Option<TextRange>, bounds: Option<(int, int)>) -> bool {
    match (r, bounds) {
        (Some(range), Some((start, end))) => start <= end && range.spec_start() == start
            && range.spec_end() == end,
        (None, Some((start, end))) => start > end,
        (None, None) => true,
        _ => false,
    }
}

/// The tokens of a node, or none for an unknown node.
pub open spec fn node_tokens(tree: &SyntaxTree, id: NodeId) -> Seq<Token> {
    if tree.valid(id) {
        tree.spec_tokens().subrange(tree.spec_first(id.spec_index()), tree.spec_last(id.spec_index()))
    } else {
        seq![]
    }
}

/// The bytes a node spans, from its first token to its last.
pub open spec fn node_bounds(tree: &SyntaxTree, id: NodeId) -> Option<(int, int)> {
    let s = node_tokens(tree, id);
    if s.len() == 0 {
        None
    } else {
        Some((s[0].spec_start(), s[s.len() - 1].spec_end()))
    }
}

fn node_range(tree: &SyntaxTree, id: NodeId) -> (r: Option<TextRange>)
    ensures
        range_is(r, node_bounds(tree, id)),
{
    match tree.tokens(id) {
        None => {
            let r = tree.text_range(id);
            r
        },
        Some(toks) => {
            let r = tree.text_range(id);
            proof {
                if toks@.len() > 0 {
                    assert(toks@[0] == tree.spec_tokens()[tree.spec_first(id.spec_index())]);
                    assert(toks@[toks@.len() - 1] == tree.spec_tokens()[tree.spec_last(
                        id.spec_index(),
                    ) - 1]);
                }
            }
            r
        },
    }
}

fn first_nontrivia_exec(s: &[Token], i: usize) -> (r: Option<usize>)
    ensures
        match r {
            Some(k) => first_nontrivia_from(s@, i as int) == Some(k as int),
            None => first_nontrivia_from(s@, i as int) is None,
        },
        r matches Some(k) ==> i <= k < s@.len(),
{
    let mut k = i;
    while k < s.len()
        invariant
            i <= k,
            first_nontrivia_from(s@, i as int) == first_nontrivia_from(s@, k as int),
        decreases s@.len() - k,
    {
        if !is_trivia_exec(s[k].kind()) {
            return Some(k);
        }
        k = k + 1;
    }
    None
}

fn first_kind_exec(s: &[Token], i: usize, kind: TokenKind) -> (r: Option<usize>)
    ensures
        match r {
            Some(k) => first_kind_from(s@, i as int, kind) == Some(k as int),
            None => first_kind_from(s@, i as int, kind) is None,
        },
        r matches Some(k) ==> i <= k < s@.len(),
{
    let mut k = i;
    while k < s.len()
        invariant
            i <= k,
            first_kind_from(s@, i as int, kind) == first_kind_from(s@, k as int, kind),
        decreases s@.len() - k,
    {
        if s[k].kind() == kind {
            return Some(k);
        }
        k = k + 1;
    }
    None
}

fn last_kind_exec(s: &[Token], kind: TokenKind) -> (r: Option<usize>)
    ensures
        match r {
            Some(k) => last_kind_before(s@, s@.len() as int, kind) == Some(k as int),
            None => last_kind_before(s@, s@.len() as int, kind) is None,
        },
        r matches Some(k) ==> k < s@.len(),
{
    let mut j = s.len();
    while j > 0
        invariant
            j <= s@.len(),
            last_kind_before(s@, s@.len() as int, kind) == last_kind_before(s@, j as int, kind),
        decreases j,
    {
        if s[j - 1].kind() == kind {
            return Some(j - 1);
        }
        j = j - 1;
    }
    None
}

fn first_kind_within_exec(s: &[Token], lo: u32, hi: u32, kind: TokenKind) -> (r: Option<usize>)
    ensures
        match r {
            Some(k) => first_kind_within(s@, 0, lo as int, hi as int, kind) == Some(k as int),
            None => first_kind_within(s@, 0, lo as int, hi as int, kind) is None,
        },
        r matches Some(k) ==> k < s@.len(),
{
    let mut k: usize = 0;
    while k < s.len()
        invariant
            first_kind_within(s@, 0, lo as int, hi as int, kind) == first_kind_within(
                s@,
                k as int,
                lo as int,
                hi as int,
                kind,
            ),
        decreases s@.len() - k,
    {
        let t = s[k];
        if t.range().start() >= lo && t.range().end() <= hi && t.kind() == kind {
            return Some(k);
        }
        k = k + 1;
    }
    None
}

fn last_nontrivia_within_exec(s: &[Token], lo: u32, hi: u32) -> (r: Option<usize>)
    ensures
        match r {
            Some(k) => last_nontrivia_within(s@, s@.len() as int, lo as int, hi as int) == Some(k as int),
            None => last_nontrivia_within(s@, s@.len() as int, lo as int, hi as int) is None,
        },
        r matches Some(k) ==> k < s@.len(),
{
    let mut j = s.len();
    while j > 0
        invariant
            j <= s@.len(),
            last_nontrivia_within(s@, s@.len() as int, lo as int, hi as int)
                == last_nontrivia_within(s@, j as int, lo as int, hi as int),
        decreases j,
    {
        let t = s[j - 1];
        if t.range().start() >= lo && t.range().end() <= hi && !is_trivia_exec(t.kind()) {
            return Some(j - 1);
        }
        j = j - 1;
    }
    None
}

fn delimiter_close_exec(s: &[Token], from: usize) -> (r: Option<usize>)
    ensures
        match r {
            Some(k) => delimiter_close(s@, from as int, seq![TokenKind::Greater]) == Some(k as int),
            None => delimiter_close(s@, from as int, seq![TokenKind::Greater]) is None,
        },
        r matches Some(k) ==> k < s@.len(),
{
    let mut stack: Vec<TokenKind> = Vec::new();
    stack.push(TokenKind::Greater);
    let mut i = from;
    assert(stack@ =~= seq![TokenKind::Greater]);
    while i < s.len()
        invariant
            stack@.len() > 0,
            delimiter_close(s@, from as int, seq![TokenKind::Greater]) == delimiter_close(
                s@,
                i as int,
                stack@,
            ),
        decreases s@.len() - i,
    {
        let kind = s[i].kind();
        let top = stack.len() - 1;
        if stack[top] == kind {
            if stack.len() == 1 {
                return Some(i);
            }
            stack.pop();
        } else {
            match close_for_exec(kind) {
                Some(expected) => {
                    stack.push(expected);
                },
                None => {},
            }
        }
        i = i + 1;
    }
    None
}

/// The bytes inside the first `<...>` of a node's tokens.
fn delimited_inner_range(tree: &SyntaxTree, id: NodeId) -> (r: Option<TextRange>)
    ensures
        range_is(r, delimited_inner_bounds(node_tokens(tree, id))),
{
    let tokens = match tree.tokens(id) {
        None => {
            return None;
        },
        Some(t) => t,
    };
    let n = tokens.len();
    let open = match first_kind_exec(tokens, 0, TokenKind::Less) {
        None => {
            return None;
        },
        Some(o) => o,
    };
    let close = match delimiter_close_exec(tokens, open + 1) {
        None => {
            return None;
        },
        Some(c) => c,
    };
    TextRange::new(tokens[open].range().end(), tokens[close].range().start())
}

/// The bytes of the type after the last `:` of a node's tokens.
fn suffix_type_range(tree: &SyntaxTree, id: NodeId) -> (r: Option<TextRange>)
    ensures
        range_is(r, suffix_type_bounds(node_tokens(tree, id))),
{
    let tokens = match tree.tokens(id) {
        None => {
            return None;
        },
        Some(t) => t,
    };
    let n = tokens.len();
    let colon = match last_kind_exec(tokens, TokenKind::Colon) {
        None => {
            return None;
        },
        Some(c) => c,
    };
    let first = match first_nontrivia_exec(tokens, colon + 1) {
        None => {
            return None;
        },
        Some(f) => f,
    };
    let last = match last_nontrivia_within_exec(tokens, 0, u32::MAX) {
        None => {
            return None;
        },
        Some(l) => l,
    };
    TextRange::new(tokens[first].range().start(), tokens[last].range().end())
}

/// The token that names an operation: the first significant one, or the first
/// significant one after `=` when the operation starts with its results.
pub open spec fn mnemonic_index(s: Seq<Token>) -> Option<int> {
    match first_nontrivia_from(s, 0) {
        None => None,
        Some(i) => {
            let j = if s[i].spec_kind() == TokenKind::PercentIdentifier {
                match first_kind_from(s, 0, TokenKind::Equal) {
                    None => None,
                    Some(e) => first_nontrivia_from(s, e + 1),
                }
            } else {
                Some(i)
            };
            match j {
                None => None,
                Some(j) => if s[j].spec_kind() == TokenKind::BareIdentifier || s[j].spec_kind()
                    == TokenKind::String {
                    Some(j)
                } else {
                    None
                },
            }
        },
    }
}

/// The smaller of two optional positions.
pub open spec fn min_opt(a: Option<int>, b: Option<int>) -> Option<int> {
    match (a, b) {
        (Some(x), Some(y)) => Some(if x <= y {
            x
        } else {
            y
        }),
        (Some(x), None) => Some(x),
        (None, Some(y)) => Some(y),
        (None, None) => None,
    }
}

/// Where the earliest of `cs` whose kind is in `kinds` and that spans bytes starts.
pub open spec fn earliest_start(tree: &SyntaxTree, cs: Seq<NodeId>, kinds: Seq<SyntaxKind>) -> Option<int>
    decreases cs.len(),
{
    if cs.len() == 0 {
        None
    } else {
        let rest = earliest_start(tree, cs.drop_last(), kinds);
        let c = cs.last();
        let here = match node_bounds(tree, c) {
            Some((start, end)) => if start <= end && kinds.contains(tree.spec_kind(c.spec_index())) {
                Some(start)
            } else {
                None
            },
            None => None,
        };
        min_opt(rest, here)
    }
}

/// The `@symbol` token between the mnemonic and the attributes or regions of an operation.
pub open spec fn leading_symbol_index(tree: &SyntaxTree, id: NodeId) -> Option<int> {
    let s = node_tokens(tree, id);
    match mnemonic_index(s) {
        None => None,
        Some(m) => match node_bounds(tree, id) {
            None => None,
            Some((start, end)) => if start > end {
                None
            } else {
                let header_end = match earliest_start(
                    tree,
                    kids(tree, id),
                    seq![SyntaxKind::AttributeDict, SyntaxKind::Region],
                ) {
                    Some(h) => h,
                    None => end,
                };
                first_kind_within(s, 0, s[m].spec_end(), header_end, TokenKind::AtIdentifier)
            },
        },
    }
}

/// The visibility keyword between the mnemonic and the leading symbol.
pub open spec fn visibility_index(tree: &SyntaxTree, id: NodeId) -> Option<int> {
    let s = node_tokens(tree, id);
    match mnemonic_index(s) {
        None => None,
        Some(m) => match leading_symbol_index(tree, id) {
            None => None,
            Some(k) => first_kind_within(
                s,
                0,
                s[m].spec_end(),
                s[k].spec_start(),
                TokenKind::BareIdentifier,
            ),
        },
    }
}

pub open spec fn attributes_word() -> Seq<u8> {
    seq![0x61u8, 0x74, 0x74, 0x72, 0x69, 0x62, 0x75, 0x74, 0x65, 0x73]
}

/// Whether the source text of token `t` is `attributes`.
pub open spec fn spells_attributes(source: Seq<u8>, t: Token) -> bool {
    t.spec_start() <= t.spec_end() <= source.len() && source.subrange(t.spec_start(), t.spec_end())
        == attributes_word()
}

/// Where the result part of a func-like signature must end: at the first region, or
/// at an attribute dictionary introduced by the `attributes` keyword.
pub open spec fn result_boundary(tree: &SyntaxTree, s: Seq<Token>, cs: Seq<NodeId>, source: Seq<u8>) -> Option<int>
    decreases cs.len(),
{
    if cs.len() == 0 {
        None
    } else {
        let rest = result_boundary(tree, s, cs.drop_last(), source);
        let c = cs.last();
        let here = match node_bounds(tree, c) {
            Some((start, end)) => if start <= end && (tree.spec_kind(c.spec_index())
                == SyntaxKind::Region || (tree.spec_kind(c.spec_index()) == SyntaxKind::AttributeDict
                && match last_nontrivia_within(s, s.len() as int, 0, start) {
                Some(t) => spells_attributes(source, s[t]),
                None => false,
            })) {
                Some(start)
            } else {
                None
            },
            None => None,
        };
        min_opt(rest, here)
    }
}

/// The result part of a func-like signature, from its arrow to its last type.
pub open spec fn function_result_bounds(tree: &SyntaxTree, id: NodeId, source: Seq<u8>) -> Option<(int, int)> {
    let s = node_tokens(tree, id);
    match first_of_kind(tree, kids(tree, id), SyntaxKind::BlockArgumentList) {
        None => None,
        Some(list) => match node_bounds(tree, list) {
            None => None,
            Some((_, arguments_end)) => if !tree.valid(id) || node_bounds(tree, list).unwrap().0 > arguments_end {
                None
            } else {
                match node_bounds(tree, id) {
                    None => None,
                    Some((op_start, op_end)) => if op_start > op_end {
                        None
                    } else {
                        let boundary = match result_boundary(tree, s, kids(tree, id), source) {
                            Some(b) => b,
                            None => op_end,
                        };
                        match first_kind_within(s, 0, arguments_end, boundary, TokenKind::Arrow) {
                            None => None,
                            Some(arrow) => match last_nontrivia_within(
                                s,
                                s.len() as int,
                                s[arrow].spec_start(),
                                boundary,
                            ) {
                                None => None,
                                Some(last) => if spells_attributes(source, s[last]) {
                                    match last_nontrivia_within(
                                        s,
                                        s.len() as int,
                                        s[arrow].spec_start(),
                                        s[last].spec_start(),
                                    ) {
                                        None => None,
                                        Some(before) => Some(
                                            (s[arrow].spec_start(), s[before].spec_end()),
                                        ),
                                    }
                                } else {
                                    Some((s[arrow].spec_start(), s[last].spec_end()))
                                },
                            },
                        }
                    },
                }
            },
        },
    }
}

fn mnemonic_index_exec(s: &[Token]) -> (r: Option<usize>)
    ensures
        match r {
            Some(k) => mnemonic_index(s@) == Some(k as int) && k < s@.len(),
            None => mnemonic_index(s@) is None,
        },
{
    let i = match first_nontrivia_exec(s, 0) {
        None => {
            return None;
        },
        Some(i) => i,
    };
    let j = if s[i].kind() == TokenKind::PercentIdentifier {
        let e = match first_kind_exec(s, 0, TokenKind::Equal) {
            None => {
                return None;
            },
            Some(e) => e,
        };
        match first_nontrivia_exec(s, e + 1) {
            None => {
                return None;
            },
            Some(j) => j,
        }
    } else {
        i
    };
    let kind = s[j].kind();
    if kind == TokenKind::BareIdentifier || kind == TokenKind::String {
        Some(j)
    } else {
        None
    }
}

/// Where the earliest child of kind `AttributeDict` or `Region` starts.
fn header_end(tree: &SyntaxTree, id: NodeId) -> (r: Option<u32>)
    ensures
        match r {
            Some(h) => earliest_start(
                tree,
                kids(tree, id),
                seq![SyntaxKind::AttributeDict, SyntaxKind::Region],
            ) == Some(h as int),
            None => earliest_start(
                tree,
                kids(tree, id),
                seq![SyntaxKind::AttributeDict, SyntaxKind::Region],
            ) is None,
        },
{
    let ghost kinds = seq![SyntaxKind::AttributeDict, SyntaxKind::Region];
    let children = match tree.children(id) {
        None => {
            return None;
        },
        Some(c) => c,
    };
    let mut best: Option<u32> = None;
    let mut k: usize = 0;
    while k < children.len()
        invariant
            k <= children@.len(),
            children@ == kids(tree, id),
            forall|j: int| 0 <= j < children@.len() ==> tree.valid(#[trigger] children@[j]),
            kinds == seq![SyntaxKind::AttributeDict, SyntaxKind::Region],
            match best {
                Some(h) => earliest_start(tree, children@.subrange(0, k as int), kinds) == Some(h as int),
                None => earliest_start(tree, children@.subrange(0, k as int), kinds) is None,
            },
        decreases children@.len() - k,
    {
        let c = children[k];
        assert(children@.subrange(0, k + 1).drop_last() =~= children@.subrange(0, k as int));
        let kind = tree.kind(c);
        let range = node_range(tree, c);
        let here: Option<u32> = match range {
            Some(range) => if kind == Some(SyntaxKind::AttributeDict) || kind == Some(SyntaxKind::Region) {
                Some(range.start())
            } else {
                None
            },
            None => None,
        };
        proof {
            assert(kinds.contains(tree.spec_kind(c.spec_index())) <==> (tree.spec_kind(c.spec_index())
                == SyntaxKind::AttributeDict || tree.spec_kind(c.spec_index()) == SyntaxKind::Region)) by {
                if tree.spec_kind(c.spec_index()) == SyntaxKind::Region {
                    assert(kinds[1] == SyntaxKind::Region);
                }
                if tree.spec_kind(c.spec_index()) == SyntaxKind::AttributeDict {
                    assert(kinds[0] == SyntaxKind::AttributeDict);
                }
            }
        }
        best = match (best, here) {
            (Some(x), Some(y)) => Some(if x <= y {
                x
            } else {
                y
            }),
            (Some(x), None) => Some(x),
            (None, Some(y)) => Some(y),
            (None, None) => None,
        };
        k = k + 1;
    }
    assert(children@.subrange(0, k as int) =~= children@);
    best
}

/// Whether the source text of token `t` is `attributes`.
fn spells_attributes_exec(source: &[u8], t: Token) -> (r: bool)
    ensures
        r == spells_attributes(source@, t),
{
    let start = t.range().start() as usize;
    let end = t.range().end() as usize;
    if start > end || end > source.len() {
        return false;
    }
    lexer::word_is(source, start, end, &[0x61, 0x74, 0x74, 0x72, 0x69, 0x62, 0x75, 0x74, 0x65, 0x73])
}

/// Where the result part of a func-like signature must end, if a child bounds it.
fn result_boundary_exec(tree: &SyntaxTree, id: NodeId, s: &[Token], source: &[u8]) -> (r: Option<u32>)
    ensures
        match r {
            Some(h) => result_boundary(tree, s@, kids(tree, id), source@) == Some(h as int),
            None => result_boundary(tree, s@, kids(tree, id), source@) is None,
        },
{
    let children = match tree.children(id) {
        None => {
            return None;
        },
        Some(c) => c,
    };
    let mut best: Option<u32> = None;
    let mut k: usize = 0;
    while k < children.len()
        invariant
            k <= children@.len(),
            children@ == kids(tree, id),
            forall|j: int| 0 <= j < children@.len() ==> tree.valid(#[trigger] children@[j]),
            match best {
                Some(h) => result_boundary(tree, s@, children@.subrange(0, k as int), source@) == Some(h as int),
                None => result_boundary(tree, s@, children@.subrange(0, k as int), source@) is None,
            },
        decreases children@.len() - k,
    {
        let c = children[k];
        assert(children@.subrange(0, k + 1).drop_last() =~= children@.subrange(0, k as int));
        let kind = tree.kind(c);
        let range = node_range(tree, c);
        let here: Option<u32> = match range {
            Some(range) => {
                let start = range.start();
                let qualifies = if kind == Some(SyntaxKind::Region) {
                    true
                } else if kind == Some(SyntaxKind::AttributeDict) {
                    match last_nontrivia_within_exec(s, 0, start) {
                        Some(t) => spells_attributes_exec(source, s[t]),
                        None => false,
                    }
                } else {
                    false
                };
                if qualifies {
                    Some(start)
                } else {
                    None
                }
            },
            None => None,
        };
        best = match (best, here) {
            (Some(x), Some(y)) => Some(if x <= y {
                x
            } else {
                y
            }),
            (Some(x), None) => Some(x),
            (None, Some(y)) => Some(y),
            (None, None) => None,
        };
        k = k + 1;
    }
    assert(children@.subrange(0, k as int) =~= children@);
    best
}

/// A view of the whole tree of one file.
#[derive(Clone, Copy)]
pub struct FileSyntax<'a> {
    tree: &'a SyntaxTree,
}

impl<'a> FileSyntax<'a> {
    pub closed spec fn spec_tree(self) -> &'a SyntaxTree {
        self.tree
    }

    /// A view of the whole tree.
    pub fn new(tree: &'a SyntaxTree) -> (r: FileSyntax<'a>)
        ensures
            r.spec_tree() == tree,
    {
        FileSyntax { tree }
    }

    /// Every node of the file, in pre-order.
    pub fn syntax(self) -> (r: Vec<SyntaxNode<'a>>)
        ensures
            r@.len() == self.spec_tree().spec_len(),
            forall|k: int|
                0 <= k < r@.len() ==> (#[trigger] r@[k]).spec_id().spec_index() == k && r@[k].spec_tree()
                    == self.spec_tree(),
    {
        let root = self.tree.root();
        let ids = match self.tree.subtree(root) {
            Some(ids) => ids,
            None => Vec::new(),
        };
        assert(forall|k: int| 0 <= k < ids@.len() ==> self.tree.valid(#[trigger] ids@[k]));
        SyntaxNode::wrap(self.tree, ids)
    }

    /// Every node of the file, in pre-order, tagged with its kind.
    pub fn typed_syntax(self) -> (r: Vec<BaseSyntax<'a>>)
        ensures
            r@.len() == self.spec_tree().spec_len(),
            forall|k: int|
                0 <= k < r@.len() ==> (#[trigger] r@[k]).spec_node().spec_id().spec_index() == k
                    && r@[k].spec_node().spec_tree() == self.spec_tree() && r@[k].spec_kind()
                    == self.spec_tree().spec_kind(k),
    {
        let nodes = self.syntax();
        let mut result: Vec<BaseSyntax<'a>> = Vec::new();
        let mut k: usize = 0;
        while k < nodes.len()
            invariant
                k <= nodes@.len(),
                nodes@.len() == self.spec_tree().spec_len(),
                forall|j: int|
                    0 <= j < nodes@.len() ==> (#[trigger] nodes@[j]).spec_id().spec_index() == j
                        && nodes@[j].spec_tree() == self.spec_tree(),
                result@.len() == k,
                forall|j: int|
                    0 <= j < k ==> (#[trigger] result@[j]).spec_node() == nodes@[j] && result@[j].spec_kind()
                        == self.spec_tree().spec_kind(j),
            decreases nodes@.len() - k,
        {
            result.push(nodes[k].typed());
            k = k + 1;
        }
        result
    }

    /// The node `id`, if the tree has it.
    pub fn node(self, id: NodeId) -> (r: Option<SyntaxNode<'a>>)
        ensures
            r is Some <==> self.spec_tree().valid(id),
            r matches Some(n) ==> n.spec_id() == id && n.spec_tree() == self.spec_tree(),
    {
        if self.tree.kind(id).is_none() {
            return None;
        }
        Some(SyntaxNode { tree: self.tree, id })
    }

    /// The operation `id`, if the tree has an operation there.
    pub fn operation(self, id: NodeId) -> (r: Option<OperationSyntax<'a>>)
        ensures
            r is Some <==> self.spec_tree().valid(id) && is_operation_kind(
                self.spec_tree().spec_kind(id.spec_index()),
            ),
            r matches Some(op) ==> op.spec_id() == id && op.spec_tree() == self.spec_tree(),
    {
        match self.tree.kind(id) {
            Some(SyntaxKind::Operation) | Some(SyntaxKind::DialectOperation) | Some(
                SyntaxKind::UnparsedCustomOperation,
            ) => Some(OperationSyntax { tree: self.tree, id }),
            _ => None,
        }
    }

    /// The alias definitions of the file, in pre-order.
    pub fn alias_definitions(self) -> (r: Vec<SyntaxNode<'a>>)
        ensures
            r@.len() == self.spec_tree().select(0, self.spec_tree().spec_len() as int, seq![SyntaxKind::AliasDefinition]).len(),
            forall|k: int|
                0 <= k < r@.len() ==> (#[trigger] r@[k]).spec_id() == self.spec_tree().select(
                    0,
                    self.spec_tree().spec_len() as int,
                    seq![SyntaxKind::AliasDefinition],
                )[k] && r@[k].spec_tree() == self.spec_tree(),
    {
        let kinds: [SyntaxKind; 1] = [SyntaxKind::AliasDefinition];
        assert(kinds@ =~= seq![SyntaxKind::AliasDefinition]);
        let ids = self.tree.select_kinds(&kinds);
        SyntaxNode::wrap(self.tree, ids)
    }

    /// The nodes of kind `kind`, in pre-order.
    pub fn nodes(self, kind: SyntaxKind) -> (r: Vec<NodeId>)
        ensures
            r@ == self.spec_tree().select(0, self.spec_tree().spec_len() as int, seq![kind]),
    {
        let kinds: [SyntaxKind; 1] = [kind];
        assert(kinds@ =~= seq![kind]);
        self.tree.select_kinds(&kinds)
    }

    /// The operations of the file, in pre-order.
    pub fn operations(self) -> (r: Vec<OperationSyntax<'a>>)
        ensures
            r@.len() == self.spec_tree().select(0, self.spec_tree().spec_len() as int, seq![SyntaxKind::Operation, SyntaxKind::DialectOperation, SyntaxKind::UnparsedCustomOperation]).len(),
            forall|k: int|
                0 <= k < r@.len() ==> (#[trigger] r@[k]).spec_id() == self.spec_tree().select(
                    0,
                    self.spec_tree().spec_len() as int,
                    seq![SyntaxKind::Operation, SyntaxKind::DialectOperation, SyntaxKind::UnparsedCustomOperation],
                )[k] && r@[k].spec_tree() == self.spec_tree(),
    {
        let kinds: [SyntaxKind; 3] = [SyntaxKind::Operation, SyntaxKind::DialectOperation, SyntaxKind::UnparsedCustomOperation];
        assert(kinds@ =~= seq![SyntaxKind::Operation, SyntaxKind::DialectOperation, SyntaxKind::UnparsedCustomOperation]);
        let ids = self.tree.select_kinds(&kinds);
        OperationSyntax::wrap(self.tree, ids)
    }

    /// The regions of the file, in pre-order.
    pub fn regions(self) -> (r: Vec<RegionSyntax<'a>>)
        ensures
            r@.len() == self.spec_tree().select(0, self.spec_tree().spec_len() as int, seq![SyntaxKind::Region]).len(),
            forall|k: int|
                0 <= k < r@.len() ==> (#[trigger] r@[k]).spec_id() == self.spec_tree().select(
                    0,
                    self.spec_tree().spec_len() as int,
                    seq![SyntaxKind::Region],
                )[k] && r@[k].spec_tree() == self.spec_tree(),
    {
        let kinds: [SyntaxKind; 1] = [SyntaxKind::Region];
        assert(kinds@ =~= seq![SyntaxKind::Region]);
        let ids = self.tree.select_kinds(&kinds);
        RegionSyntax::wrap(self.tree, ids)
    }

    /// The tuple, tensor, vector, and memref types, in pre-order.
    pub fn shaped_types(self) -> (r: Vec<TypeSyntax<'a>>)
        ensures
            r@.len() == self.spec_tree().select(0, self.spec_tree().spec_len() as int, seq![SyntaxKind::TupleType, SyntaxKind::TensorType, SyntaxKind::VectorType, SyntaxKind::MemRefType]).len(),
            forall|k: int|
                0 <= k < r@.len() ==> (#[trigger] r@[k]).spec_id() == self.spec_tree().select(
                    0,
                    self.spec_tree().spec_len() as int,
                    seq![SyntaxKind::TupleType, SyntaxKind::TensorType, SyntaxKind::VectorType, SyntaxKind::MemRefType],
                )[k] && r@[k].spec_tree() == self.spec_tree(),
    {
        let kinds: [SyntaxKind; 4] = [SyntaxKind::TupleType, SyntaxKind::TensorType, SyntaxKind::VectorType, SyntaxKind::MemRefType];
        assert(kinds@ =~= seq![SyntaxKind::TupleType, SyntaxKind::TensorType, SyntaxKind::VectorType, SyntaxKind::MemRefType]);
        let ids = self.tree.select_kinds(&kinds);
        TypeSyntax::wrap(self.tree, ids)
    }

    /// The affine maps and integer sets, in pre-order.
    pub fn affine_values(self) -> (r: Vec<AffineSyntax<'a>>)
        ensures
            r@.len() == self.spec_tree().select(0, self.spec_tree().spec_len() as int, seq![SyntaxKind::AffineMap, SyntaxKind::IntegerSet]).len(),
            forall|k: int|
                0 <= k < r@.len() ==> (#[trigger] r@[k]).spec_id() == self.spec_tree().select(
                    0,
                    self.spec_tree().spec_len() as int,
                    seq![SyntaxKind::AffineMap, SyntaxKind::IntegerSet],
                )[k] && r@[k].spec_tree() == self.spec_tree(),
    {
        let kinds: [SyntaxKind; 2] = [SyntaxKind::AffineMap, SyntaxKind::IntegerSet];
        assert(kinds@ =~= seq![SyntaxKind::AffineMap, SyntaxKind::IntegerSet]);
        let ids = self.tree.select_kinds(&kinds);
        AffineSyntax::wrap(self.tree, ids)
    }

    /// The function types, in pre-order.
    pub fn function_types(self) -> (r: Vec<FunctionTypeSyntax<'a>>)
        ensures
            r@.len() == self.spec_tree().select(0, self.spec_tree().spec_len() as int, seq![SyntaxKind::FunctionType]).len(),
            forall|k: int|
                0 <= k < r@.len() ==> (#[trigger] r@[k]).spec_id() == self.spec_tree().select(
                    0,
                    self.spec_tree().spec_len() as int,
                    seq![SyntaxKind::FunctionType],
                )[k] && r@[k].spec_tree() == self.spec_tree(),
    {
        let kinds: [SyntaxKind; 1] = [SyntaxKind::FunctionType];
        assert(kinds@ =~= seq![SyntaxKind::FunctionType]);
        let ids = self.tree.select_kinds(&kinds);
        FunctionTypeSyntax::wrap(self.tree, ids)
    }

    /// The elements attributes, in pre-order.
    pub fn payload_attributes(self) -> (r: Vec<PayloadAttributeSyntax<'a>>)
        ensures
            r@.len() == self.spec_tree().select(0, self.spec_tree().spec_len() as int, seq![SyntaxKind::DenseElementsAttribute, SyntaxKind::SparseElementsAttribute, SyntaxKind::DenseResourceElementsAttribute]).len(),
            forall|k: int|
                0 <= k < r@.len() ==> (#[trigger] r@[k]).spec_id() == self.spec_tree().select(
                    0,
                    self.spec_tree().spec_len() as int,
                    seq![SyntaxKind::DenseElementsAttribute, SyntaxKind::SparseElementsAttribute, SyntaxKind::DenseResourceElementsAttribute],
                )[k] && r@[k].spec_tree() == self.spec_tree(),
    {
        let kinds: [SyntaxKind; 3] = [SyntaxKind::DenseElementsAttribute, SyntaxKind::SparseElementsAttribute, SyntaxKind::DenseResourceElementsAttribute];
        assert(kinds@ =~= seq![SyntaxKind::DenseElementsAttribute, SyntaxKind::SparseElementsAttribute, SyntaxKind::DenseResourceElementsAttribute]);
        let ids = self.tree.select_kinds(&kinds);
        PayloadAttributeSyntax::wrap(self.tree, ids)
    }

    /// The bodies of opaque attributes and types, in pre-order.
    pub fn opaque_bodies(self) -> (r: Vec<OpaqueBodySyntax<'a>>)
        ensures
            r@.len() == self.spec_tree().select(0, self.spec_tree().spec_len() as int, seq![SyntaxKind::OpaqueAttributeBody, SyntaxKind::OpaqueTypeBody]).len(),
            forall|k: int|
                0 <= k < r@.len() ==> (#[trigger] r@[k]).spec_id() == self.spec_tree().select(
                    0,
                    self.spec_tree().spec_len() as int,
                    seq![SyntaxKind::OpaqueAttributeBody, SyntaxKind::OpaqueTypeBody],
                )[k] && r@[k].spec_tree() == self.spec_tree(),
    {
        let kinds: [SyntaxKind; 2] = [SyntaxKind::OpaqueAttributeBody, SyntaxKind::OpaqueTypeBody];
        assert(kinds@ =~= seq![SyntaxKind::OpaqueAttributeBody, SyntaxKind::OpaqueTypeBody]);
        let ids = self.tree.select_kinds(&kinds);
        OpaqueBodySyntax::wrap(self.tree, ids)
    }

    /// The wide integer literals, in pre-order.
    pub fn wide_numbers(self) -> (r: Vec<WideNumberSyntax<'a>>)
        ensures
            r@.len() == self.spec_tree().select(0, self.spec_tree().spec_len() as int, seq![SyntaxKind::WideNumber]).len(),
            forall|k: int|
                0 <= k < r@.len() ==> (#[trigger] r@[k]).spec_id() == self.spec_tree().select(
                    0,
                    self.spec_tree().spec_len() as int,
                    seq![SyntaxKind::WideNumber],
                )[k] && r@[k].spec_tree() == self.spec_tree(),
    {
        let kinds: [SyntaxKind; 1] = [SyntaxKind::WideNumber];
        assert(kinds@ =~= seq![SyntaxKind::WideNumber]);
        let ids = self.tree.select_kinds(&kinds);
        WideNumberSyntax::wrap(self.tree, ids)
    }
}

/// A dense, sparse, or dense-resource elements attribute.
#[derive(Clone, Copy)]
pub struct PayloadAttributeSyntax<'a> {
    tree: &'a SyntaxTree,
    id: NodeId,
}

impl<'a> PayloadAttributeSyntax<'a> {
    pub closed spec fn spec_id(self) -> NodeId {
        self.id
    }

    pub closed spec fn spec_tree(self) -> &'a SyntaxTree {
        self.tree
    }

    pub fn id(self) -> (r: NodeId)
        ensures
            r == self.spec_id(),
    {
        self.id
    }

    pub fn tree(self) -> (r: &'a SyntaxTree)
        ensures
            r == self.spec_tree(),
    {
        self.tree
    }

    fn wrap(tree: &'a SyntaxTree, ids: Vec<NodeId>) -> (r: Vec<PayloadAttributeSyntax<'a>>)
        ensures
            r@.len() == ids@.len(),
            forall|k: int|
                0 <= k < r@.len() ==> (#[trigger] r@[k]).spec_id() == ids@[k] && r@[k].spec_tree()
                    == tree,
    {
        let mut result: Vec<PayloadAttributeSyntax<'a>> = Vec::new();
        let mut k: usize = 0;
        while k < ids.len()
            invariant
                k <= ids@.len(),
                result@.len() == k,
                forall|j: int|
                    0 <= j < k ==> (#[trigger] result@[j]).spec_id() == ids@[j] && result@[j].spec_tree()
                        == tree,
            decreases ids@.len() - k,
        {
            result.push(PayloadAttributeSyntax { tree, id: ids[k] });
            k = k + 1;
        }
        result
    }
}

/// The body of an opaque attribute or type.
#[derive(Clone, Copy)]
pub struct OpaqueBodySyntax<'a> {
    tree: &'a SyntaxTree,
    id: NodeId,
}

impl<'a> OpaqueBodySyntax<'a> {
    pub closed spec fn spec_id(self) -> NodeId {
        self.id
    }

    pub closed spec fn spec_tree(self) -> &'a SyntaxTree {
        self.tree
    }

    pub fn id(self) -> (r: NodeId)
        ensures
            r == self.spec_id(),
    {
        self.id
    }

    pub fn tree(self) -> (r: &'a SyntaxTree)
        ensures
            r == self.spec_tree(),
    {
        self.tree
    }

    fn wrap(tree: &'a SyntaxTree, ids: Vec<NodeId>) -> (r: Vec<OpaqueBodySyntax<'a>>)
        ensures
            r@.len() == ids@.len(),
            forall|k: int|
                0 <= k < r@.len() ==> (#[trigger] r@[k]).spec_id() == ids@[k] && r@[k].spec_tree()
                    == tree,
    {
        let mut result: Vec<OpaqueBodySyntax<'a>> = Vec::new();
        let mut k: usize = 0;
        while k < ids.len()
            invariant
                k <= ids@.len(),
                result@.len() == k,
                forall|j: int|
                    0 <= j < k ==> (#[trigger] result@[j]).spec_id() == ids@[j] && result@[j].spec_tree()
                        == tree,
            decreases ids@.len() - k,
        {
            result.push(OpaqueBodySyntax { tree, id: ids[k] });
            k = k + 1;
        }
        result
    }
}

/// An integer literal too wide for a machine word, with its type.
#[derive(Clone, Copy)]
pub struct WideNumberSyntax<'a> {
    tree: &'a SyntaxTree,
    id: NodeId,
}

impl<'a> WideNumberSyntax<'a> {
    pub closed spec fn spec_id(self) -> NodeId {
        self.id
    }

    pub closed spec fn spec_tree(self) -> &'a SyntaxTree {
        self.tree
    }

    pub fn id(self) -> (r: NodeId)
        ensures
            r == self.spec_id(),
    {
        self.id
    }

    pub fn tree(self) -> (r: &'a SyntaxTree)
        ensures
            r == self.spec_tree(),
    {
        self.tree
    }

    fn wrap(tree: &'a SyntaxTree, ids: Vec<NodeId>) -> (r: Vec<WideNumberSyntax<'a>>)
        ensures
            r@.len() == ids@.len(),
            forall|k: int|
                0 <= k < r@.len() ==> (#[trigger] r@[k]).spec_id() == ids@[k] && r@[k].spec_tree()
                    == tree,
    {
        let mut result: Vec<WideNumberSyntax<'a>> = Vec::new();
        let mut k: usize = 0;
        while k < ids.len()
            invariant
                k <= ids@.len(),
                result@.len() == k,
                forall|j: int|
                    0 <= j < k ==> (#[trigger] result@[j]).spec_id() == ids@[j] && result@[j].spec_tree()
                        == tree,
            decreases ids@.len() - k,
        {
            result.push(WideNumberSyntax { tree, id: ids[k] });
            k = k + 1;
        }
        result
    }
}

/// A function type.
#[derive(Clone, Copy)]
pub struct FunctionTypeSyntax<'a> {
    tree: &'a SyntaxTree,
    id: NodeId,
}

impl<'a> FunctionTypeSyntax<'a> {
    pub closed spec fn spec_id(self) -> NodeId {
        self.id
    }

    pub closed spec fn spec_tree(self) -> &'a SyntaxTree {
        self.tree
    }

    pub fn id(self) -> (r: NodeId)
        ensures
            r == self.spec_id(),
    {
        self.id
    }

    pub fn tree(self) -> (r: &'a SyntaxTree)
        ensures
            r == self.spec_tree(),
    {
        self.tree
    }

    fn wrap(tree: &'a SyntaxTree, ids: Vec<NodeId>) -> (r: Vec<FunctionTypeSyntax<'a>>)
        ensures
            r@.len() == ids@.len(),
            forall|k: int|
                0 <= k < r@.len() ==> (#[trigger] r@[k]).spec_id() == ids@[k] && r@[k].spec_tree()
                    == tree,
    {
        let mut result: Vec<FunctionTypeSyntax<'a>> = Vec::new();
        let mut k: usize = 0;
        while k < ids.len()
            invariant
                k <= ids@.len(),
                result@.len() == k,
                forall|j: int|
                    0 <= j < k ==> (#[trigger] result@[j]).spec_id() == ids@[j] && result@[j].spec_tree()
                        == tree,
            decreases ids@.len() - k,
        {
            result.push(FunctionTypeSyntax { tree, id: ids[k] });
            k = k + 1;
        }
        result
    }
}

/// A tuple, tensor, vector, or memref type.
#[derive(Clone, Copy)]
pub struct TypeSyntax<'a> {
    tree: &'a SyntaxTree,
    id: NodeId,
}

impl<'a> TypeSyntax<'a> {
    pub closed spec fn spec_id(self) -> NodeId {
        self.id
    }

    pub closed spec fn spec_tree(self) -> &'a SyntaxTree {
        self.tree
    }

    pub fn id(self) -> (r: NodeId)
        ensures
            r == self.spec_id(),
    {
        self.id
    }

    pub fn tree(self) -> (r: &'a SyntaxTree)
        ensures
            r == self.spec_tree(),
    {
        self.tree
    }

    fn wrap(tree: &'a SyntaxTree, ids: Vec<NodeId>) -> (r: Vec<TypeSyntax<'a>>)
        ensures
            r@.len() == ids@.len(),
            forall|k: int|
                0 <= k < r@.len() ==> (#[trigger] r@[k]).spec_id() == ids@[k] && r@[k].spec_tree()
                    == tree,
    {
        let mut result: Vec<TypeSyntax<'a>> = Vec::new();
        let mut k: usize = 0;
        while k < ids.len()
            invariant
                k <= ids@.len(),
                result@.len() == k,
                forall|j: int|
                    0 <= j < k ==> (#[trigger] result@[j]).spec_id() == ids@[j] && result@[j].spec_tree()
                        == tree,
            decreases ids@.len() - k,
        {
            result.push(TypeSyntax { tree, id: ids[k] });
            k = k + 1;
        }
        result
    }
}

/// An affine map or integer set.
#[derive(Clone, Copy)]
pub struct AffineSyntax<'a> {
    tree: &'a SyntaxTree,
    id: NodeId,
}

impl<'a> AffineSyntax<'a> {
    pub closed spec fn spec_id(self) -> NodeId {
        self.id
    }

    pub closed spec fn spec_tree(self) -> &'a SyntaxTree {
        self.tree
    }

    pub fn id(self) -> (r: NodeId)
        ensures
            r == self.spec_id(),
    {
        self.id
    }

    pub fn tree(self) -> (r: &'a SyntaxTree)
        ensures
            r == self.spec_tree(),
    {
        self.tree
    }

    fn wrap(tree: &'a SyntaxTree, ids: Vec<NodeId>) -> (r: Vec<AffineSyntax<'a>>)
        ensures
            r@.len() == ids@.len(),
            forall|k: int|
                0 <= k < r@.len() ==> (#[trigger] r@[k]).spec_id() == ids@[k] && r@[k].spec_tree()
                    == tree,
    {
        let mut result: Vec<AffineSyntax<'a>> = Vec::new();
        let mut k: usize = 0;
        while k < ids.len()
            invariant
                k <= ids@.len(),
                result@.len() == k,
                forall|j: int|
                    0 <= j < k ==> (#[trigger] result@[j]).spec_id() == ids@[j] && result@[j].spec_tree()
                        == tree,
            decreases ids@.len() - k,
        {
            result.push(AffineSyntax { tree, id: ids[k] });
            k = k + 1;
        }
        result
    }
}

/// An operation, generic or custom.
#[derive(Clone, Copy)]
pub struct OperationSyntax<'a> {
    tree: &'a SyntaxTree,
    id: NodeId,
}

impl<'a> OperationSyntax<'a> {
    pub closed spec fn spec_id(self) -> NodeId {
        self.id
    }

    pub closed spec fn spec_tree(self) -> &'a SyntaxTree {
        self.tree
    }

    pub fn id(self) -> (r: NodeId)
        ensures
            r == self.spec_id(),
    {
        self.id
    }

    pub fn tree(self) -> (r: &'a SyntaxTree)
        ensures
            r == self.spec_tree(),
    {
        self.tree
    }

    fn wrap(tree: &'a SyntaxTree, ids: Vec<NodeId>) -> (r: Vec<OperationSyntax<'a>>)
        ensures
            r@.len() == ids@.len(),
            forall|k: int|
                0 <= k < r@.len() ==> (#[trigger] r@[k]).spec_id() == ids@[k] && r@[k].spec_tree()
                    == tree,
    {
        let mut result: Vec<OperationSyntax<'a>> = Vec::new();
        let mut k: usize = 0;
        while k < ids.len()
            invariant
                k <= ids@.len(),
                result@.len() == k,
                forall|j: int|
                    0 <= j < k ==> (#[trigger] result@[j]).spec_id() == ids@[j] && result@[j].spec_tree()
                        == tree,
            decreases ids@.len() - k,
        {
            result.push(OperationSyntax { tree, id: ids[k] });
            k = k + 1;
        }
        result
    }
}

/// A direct part of an operation.
#[derive(Clone, Copy)]
pub struct OperationComponentSyntax<'a> {
    tree: &'a SyntaxTree,
    id: NodeId,
}

impl<'a> OperationComponentSyntax<'a> {
    pub closed spec fn spec_id(self) -> NodeId {
        self.id
    }

    pub closed spec fn spec_tree(self) -> &'a SyntaxTree {
        self.tree
    }

    pub fn id(self) -> (r: NodeId)
        ensures
            r == self.spec_id(),
    {
        self.id
    }

    pub fn tree(self) -> (r: &'a SyntaxTree)
        ensures
            r == self.spec_tree(),
    {
        self.tree
    }

    fn wrap(tree: &'a SyntaxTree, ids: Vec<NodeId>) -> (r: Vec<OperationComponentSyntax<'a>>)
        ensures
            r@.len() == ids@.len(),
            forall|k: int|
                0 <= k < r@.len() ==> (#[trigger] r@[k]).spec_id() == ids@[k] && r@[k].spec_tree()
                    == tree,
    {
        let mut result: Vec<OperationComponentSyntax<'a>> = Vec::new();
        let mut k: usize = 0;
        while k < ids.len()
            invariant
                k <= ids@.len(),
                result@.len() == k,
                forall|j: int|
                    0 <= j < k ==> (#[trigger] result@[j]).spec_id() == ids@[j] && result@[j].spec_tree()
                        == tree,
            decreases ids@.len() - k,
        {
            result.push(OperationComponentSyntax { tree, id: ids[k] });
            k = k + 1;
        }
        result
    }
}

/// A group of results of an operation.
#[derive(Clone, Copy)]
pub struct ResultGroupSyntax<'a> {
    tree: &'a SyntaxTree,
    id: NodeId,
}

impl<'a> ResultGroupSyntax<'a> {
    pub closed spec fn spec_id(self) -> NodeId {
        self.id
    }

    pub closed spec fn spec_tree(self) -> &'a SyntaxTree {
        self.tree
    }

    pub fn id(self) -> (r: NodeId)
        ensures
            r == self.spec_id(),
    {
        self.id
    }

    pub fn tree(self) -> (r: &'a SyntaxTree)
        ensures
            r == self.spec_tree(),
    {
        self.tree
    }

    fn wrap(tree: &'a SyntaxTree, ids: Vec<NodeId>) -> (r: Vec<ResultGroupSyntax<'a>>)
        ensures
            r@.len() == ids@.len(),
            forall|k: int|
                0 <= k < r@.len() ==> (#[trigger] r@[k]).spec_id() == ids@[k] && r@[k].spec_tree()
                    == tree,
    {
        let mut result: Vec<ResultGroupSyntax<'a>> = Vec::new();
        let mut k: usize = 0;
        while k < ids.len()
            invariant
                k <= ids@.len(),
                result@.len() == k,
                forall|j: int|
                    0 <= j < k ==> (#[trigger] result@[j]).spec_id() == ids@[j] && result@[j].spec_tree()
                        == tree,
            decreases ids@.len() - k,
        {
            result.push(ResultGroupSyntax { tree, id: ids[k] });
            k = k + 1;
        }
        result
    }
}

/// A use of an operand.
#[derive(Clone, Copy)]
pub struct OperandUseSyntax<'a> {
    tree: &'a SyntaxTree,
    id: NodeId,
}

impl<'a> OperandUseSyntax<'a> {
    pub closed spec fn spec_id(self) -> NodeId {
        self.id
    }

    pub closed spec fn spec_tree(self) -> &'a SyntaxTree {
        self.tree
    }

    pub fn id(self) -> (r: NodeId)
        ensures
            r == self.spec_id(),
    {
        self.id
    }

    pub fn tree(self) -> (r: &'a SyntaxTree)
        ensures
            r == self.spec_tree(),
    {
        self.tree
    }

    fn wrap(tree: &'a SyntaxTree, ids: Vec<NodeId>) -> (r: Vec<OperandUseSyntax<'a>>)
        ensures
            r@.len() == ids@.len(),
            forall|k: int|
                0 <= k < r@.len() ==> (#[trigger] r@[k]).spec_id() == ids@[k] && r@[k].spec_tree()
                    == tree,
    {
        let mut result: Vec<OperandUseSyntax<'a>> = Vec::new();
        let mut k: usize = 0;
        while k < ids.len()
            invariant
                k <= ids@.len(),
                result@.len() == k,
                forall|j: int|
                    0 <= j < k ==> (#[trigger] result@[j]).spec_id() == ids@[j] && result@[j].spec_tree()
                        == tree,
            decreases ids@.len() - k,
        {
            result.push(OperandUseSyntax { tree, id: ids[k] });
            k = k + 1;
        }
        result
    }
}

/// An argument of a block or a function-like operation.
#[derive(Clone, Copy)]
pub struct BlockArgumentSyntax<'a> {
    tree: &'a SyntaxTree,
    id: NodeId,
}

impl<'a> BlockArgumentSyntax<'a> {
    pub closed spec fn spec_id(self) -> NodeId {
        self.id
    }

    pub closed spec fn spec_tree(self) -> &'a SyntaxTree {
        self.tree
    }

    pub fn id(self) -> (r: NodeId)
        ensures
            r == self.spec_id(),
    {
        self.id
    }

    pub fn tree(self) -> (r: &'a SyntaxTree)
        ensures
            r == self.spec_tree(),
    {
        self.tree
    }

    fn wrap(tree: &'a SyntaxTree, ids: Vec<NodeId>) -> (r: Vec<BlockArgumentSyntax<'a>>)
        ensures
            r@.len() == ids@.len(),
            forall|k: int|
                0 <= k < r@.len() ==> (#[trigger] r@[k]).spec_id() == ids@[k] && r@[k].spec_tree()
                    == tree,
    {
        let mut result: Vec<BlockArgumentSyntax<'a>> = Vec::new();
        let mut k: usize = 0;
        while k < ids.len()
            invariant
                k <= ids@.len(),
                result@.len() == k,
                forall|j: int|
                    0 <= j < k ==> (#[trigger] result@[j]).spec_id() == ids@[j] && result@[j].spec_tree()
                        == tree,
            decreases ids@.len() - k,
        {
            result.push(BlockArgumentSyntax { tree, id: ids[k] });
            k = k + 1;
        }
        result
    }
}

/// The argument list of a successor.
#[derive(Clone, Copy)]
pub struct SuccessorArgumentsSyntax<'a> {
    tree: &'a SyntaxTree,
    id: NodeId,
}

impl<'a> SuccessorArgumentsSyntax<'a> {
    pub closed spec fn spec_id(self) -> NodeId {
        self.id
    }

    pub closed spec fn spec_tree(self) -> &'a SyntaxTree {
        self.tree
    }

    pub fn id(self) -> (r: NodeId)
        ensures
            r == self.spec_id(),
    {
        self.id
    }

    pub fn tree(self) -> (r: &'a SyntaxTree)
        ensures
            r == self.spec_tree(),
    {
        self.tree
    }

    fn wrap(tree: &'a SyntaxTree, ids: Vec<NodeId>) -> (r: Vec<SuccessorArgumentsSyntax<'a>>)
        ensures
            r@.len() == ids@.len(),
            forall|k: int|
                0 <= k < r@.len() ==> (#[trigger] r@[k]).spec_id() == ids@[k] && r@[k].spec_tree()
                    == tree,
    {
        let mut result: Vec<SuccessorArgumentsSyntax<'a>> = Vec::new();
        let mut k: usize = 0;
        while k < ids.len()
            invariant
                k <= ids@.len(),
                result@.len() == k,
                forall|j: int|
                    0 <= j < k ==> (#[trigger] result@[j]).spec_id() == ids@[j] && result@[j].spec_tree()
                        == tree,
            decreases ids@.len() - k,
        {
            result.push(SuccessorArgumentsSyntax { tree, id: ids[k] });
            k = k + 1;
        }
        result
    }
}

/// The property dictionary of an operation.
#[derive(Clone, Copy)]
pub struct PropertyDictSyntax<'a> {
    tree: &'a SyntaxTree,
    id: NodeId,
}

impl<'a> PropertyDictSyntax<'a> {
    pub closed spec fn spec_id(self) -> NodeId {
        self.id
    }

    pub closed spec fn spec_tree(self) -> &'a SyntaxTree {
        self.tree
    }

    pub fn id(self) -> (r: NodeId)
        ensures
            r == self.spec_id(),
    {
        self.id
    }

    pub fn tree(self) -> (r: &'a SyntaxTree)
        ensures
            r == self.spec_tree(),
    {
        self.tree
    }

    fn wrap(tree: &'a SyntaxTree, ids: Vec<NodeId>) -> (r: Vec<PropertyDictSyntax<'a>>)
        ensures
            r@.len() == ids@.len(),
            forall|k: int|
                0 <= k < r@.len() ==> (#[trigger] r@[k]).spec_id() == ids@[k] && r@[k].spec_tree()
                    == tree,
    {
        let mut result: Vec<PropertyDictSyntax<'a>> = Vec::new();
        let mut k: usize = 0;
        while k < ids.len()
            invariant
                k <= ids@.len(),
                result@.len() == k,
                forall|j: int|
                    0 <= j < k ==> (#[trigger] result@[j]).spec_id() == ids@[j] && result@[j].spec_tree()
                        == tree,
            decreases ids@.len() - k,
        {
            result.push(PropertyDictSyntax { tree, id: ids[k] });
            k = k + 1;
        }
        result
    }
}

/// The attribute dictionary of an operation.
#[derive(Clone, Copy)]
pub struct AttributeDictSyntax<'a> {
    tree: &'a SyntaxTree,
    id: NodeId,
}

impl<'a> AttributeDictSyntax<'a> {
    pub closed spec fn spec_id(self) -> NodeId {
        self.id
    }

    pub closed spec fn spec_tree(self) -> &'a SyntaxTree {
        self.tree
    }

    pub fn id(self) -> (r: NodeId)
        ensures
            r == self.spec_id(),
    {
        self.id
    }

    pub fn tree(self) -> (r: &'a SyntaxTree)
        ensures
            r == self.spec_tree(),
    {
        self.tree
    }

    fn wrap(tree: &'a SyntaxTree, ids: Vec<NodeId>) -> (r: Vec<AttributeDictSyntax<'a>>)
        ensures
            r@.len() == ids@.len(),
            forall|k: int|
                0 <= k < r@.len() ==> (#[trigger] r@[k]).spec_id() == ids@[k] && r@[k].spec_tree()
                    == tree,
    {
        let mut result: Vec<AttributeDictSyntax<'a>> = Vec::new();
        let mut k: usize = 0;
        while k < ids.len()
            invariant
                k <= ids@.len(),
                result@.len() == k,
                forall|j: int|
                    0 <= j < k ==> (#[trigger] result@[j]).spec_id() == ids@[j] && result@[j].spec_tree()
                        == tree,
            decreases ids@.len() - k,
        {
            result.push(AttributeDictSyntax { tree, id: ids[k] });
            k = k + 1;
        }
        result
    }
}

/// The trailing location of an operation.
#[derive(Clone, Copy)]
pub struct TrailingLocationSyntax<'a> {
    tree: &'a SyntaxTree,
    id: NodeId,
}

impl<'a> TrailingLocationSyntax<'a> {
    pub closed spec fn spec_id(self) -> NodeId {
        self.id
    }

    pub closed spec fn spec_tree(self) -> &'a SyntaxTree {
        self.tree
    }

    pub fn id(self) -> (r: NodeId)
        ensures
            r == self.spec_id(),
    {
        self.id
    }

    pub fn tree(self) -> (r: &'a SyntaxTree)
        ensures
            r == self.spec_tree(),
    {
        self.tree
    }

    fn wrap(tree: &'a SyntaxTree, ids: Vec<NodeId>) -> (r: Vec<TrailingLocationSyntax<'a>>)
        ensures
            r@.len() == ids@.len(),
            forall|k: int|
                0 <= k < r@.len() ==> (#[trigger] r@[k]).spec_id() == ids@[k] && r@[k].spec_tree()
                    == tree,
    {
        let mut result: Vec<TrailingLocationSyntax<'a>> = Vec::new();
        let mut k: usize = 0;
        while k < ids.len()
            invariant
                k <= ids@.len(),
                result@.len() == k,
                forall|j: int|
                    0 <= j < k ==> (#[trigger] result@[j]).spec_id() == ids@[j] && result@[j].spec_tree()
                        == tree,
            decreases ids@.len() - k,
        {
            result.push(TrailingLocationSyntax { tree, id: ids[k] });
            k = k + 1;
        }
        result
    }
}

/// A successor block reference.
#[derive(Clone, Copy)]
pub struct SuccessorSyntax<'a> {
    tree: &'a SyntaxTree,
    id: NodeId,
}

impl<'a> SuccessorSyntax<'a> {
    pub closed spec fn spec_id(self) -> NodeId {
        self.id
    }

    pub closed spec fn spec_tree(self) -> &'a SyntaxTree {
        self.tree
    }

    pub fn id(self) -> (r: NodeId)
        ensures
            r == self.spec_id(),
    {
        self.id
    }

    pub fn tree(self) -> (r: &'a SyntaxTree)
        ensures
            r == self.spec_tree(),
    {
        self.tree
    }

    fn wrap(tree: &'a SyntaxTree, ids: Vec<NodeId>) -> (r: Vec<SuccessorSyntax<'a>>)
        ensures
            r@.len() == ids@.len(),
            forall|k: int|
                0 <= k < r@.len() ==> (#[trigger] r@[k]).spec_id() == ids@[k] && r@[k].spec_tree()
                    == tree,
    {
        let mut result: Vec<SuccessorSyntax<'a>> = Vec::new();
        let mut k: usize = 0;
        while k < ids.len()
            invariant
                k <= ids@.len(),
                result@.len() == k,
                forall|j: int|
                    0 <= j < k ==> (#[trigger] result@[j]).spec_id() == ids@[j] && result@[j].spec_tree()
                        == tree,
            decreases ids@.len() - k,
        {
            result.push(SuccessorSyntax { tree, id: ids[k] });
            k = k + 1;
        }
        result
    }
}

/// A region.
#[derive(Clone, Copy)]
pub struct RegionSyntax<'a> {
    tree: &'a SyntaxTree,
    id: NodeId,
}

impl<'a> RegionSyntax<'a> {
    pub closed spec fn spec_id(self) -> NodeId {
        self.id
    }

    pub closed spec fn spec_tree(self) -> &'a SyntaxTree {
        self.tree
    }

    pub fn id(self) -> (r: NodeId)
        ensures
            r == self.spec_id(),
    {
        self.id
    }

    pub fn tree(self) -> (r: &'a SyntaxTree)
        ensures
            r == self.spec_tree(),
    {
        self.tree
    }

    fn wrap(tree: &'a SyntaxTree, ids: Vec<NodeId>) -> (r: Vec<RegionSyntax<'a>>)
        ensures
            r@.len() == ids@.len(),
            forall|k: int|
                0 <= k < r@.len() ==> (#[trigger] r@[k]).spec_id() == ids@[k] && r@[k].spec_tree()
                    == tree,
    {
        let mut result: Vec<RegionSyntax<'a>> = Vec::new();
        let mut k: usize = 0;
        while k < ids.len()
            invariant
                k <= ids@.len(),
                result@.len() == k,
                forall|j: int|
                    0 <= j < k ==> (#[trigger] result@[j]).spec_id() == ids@[j] && result@[j].spec_tree()
                        == tree,
            decreases ids@.len() - k,
        {
            result.push(RegionSyntax { tree, id: ids[k] });
            k = k + 1;
        }
        result
    }
}

/// A block of a region.
#[derive(Clone, Copy)]
pub struct BlockSyntax<'a> {
    tree: &'a SyntaxTree,
    id: NodeId,
}

impl<'a> BlockSyntax<'a> {
    pub closed spec fn spec_id(self) -> NodeId {
        self.id
    }

    pub closed spec fn spec_tree(self) -> &'a SyntaxTree {
        self.tree
    }

    pub fn id(self) -> (r: NodeId)
        ensures
            r == self.spec_id(),
    {
        self.id
    }

    pub fn tree(self) -> (r: &'a SyntaxTree)
        ensures
            r == self.spec_tree(),
    {
        self.tree
    }

    fn wrap(tree: &'a SyntaxTree, ids: Vec<NodeId>) -> (r: Vec<BlockSyntax<'a>>)
        ensures
            r@.len() == ids@.len(),
            forall|k: int|
                0 <= k < r@.len() ==> (#[trigger] r@[k]).spec_id() == ids@[k] && r@[k].spec_tree()
                    == tree,
    {
        let mut result: Vec<BlockSyntax<'a>> = Vec::new();
        let mut k: usize = 0;
        while k < ids.len()
            invariant
                k <= ids@.len(),
                result@.len() == k,
                forall|j: int|
                    0 <= j < k ==> (#[trigger] result@[j]).spec_id() == ids@[j] && result@[j].spec_tree()
                        == tree,
            decreases ids@.len() - k,
        {
            result.push(BlockSyntax { tree, id: ids[k] });
            k = k + 1;
        }
        result
    }
}

/// A borrowed view of any node of the tree.
///
/// The view is structural: it exposes the node's kind, children, range, and
/// error state without giving its contents a meaning.
#[derive(Clone, Copy)]
pub struct SyntaxNode<'a> {
    tree: &'a SyntaxTree,
    id: NodeId,
}

impl<'a> SyntaxNode<'a> {
    #[verifier::type_invariant]
    closed spec fn refers_to_node(self) -> bool {
        self.tree.valid(self.id)
    }

    pub closed spec fn spec_id(self) -> NodeId {
        self.id
    }

    pub closed spec fn spec_tree(self) -> &'a SyntaxTree {
        self.tree
    }

    pub fn id(self) -> (r: NodeId)
        ensures
            r == self.spec_id(),
            self.spec_tree().valid(r),
    {
        proof {
            use_type_invariant(self);
        }
        self.id
    }

    pub fn tree(self) -> (r: &'a SyntaxTree)
        ensures
            r == self.spec_tree(),
    {
        self.tree
    }

    pub fn kind(self) -> (r: SyntaxKind)
        ensures
            r == self.spec_tree().spec_kind(self.spec_id().spec_index()),
    {
        proof {
            use_type_invariant(self);
        }
        match self.tree.kind(self.id) {
            Some(kind) => kind,
            None => SyntaxKind::Error,
        }
    }

    pub fn text_range(self) -> (r: Option<TextRange>)
        ensures
            r is Some <==> ({
                let t = self.spec_tree();
                let i = self.spec_id().spec_index();
                t.spec_first(i) < t.spec_last(i) && t.spec_tokens()[t.spec_first(i)].spec_start()
                    <= t.spec_tokens()[t.spec_last(i) - 1].spec_end()
            }),
            r matches Some(range) ==> ({
                let t = self.spec_tree();
                let i = self.spec_id().spec_index();
                range.spec_start() == t.spec_tokens()[t.spec_first(i)].spec_start()
                    && range.spec_end() == t.spec_tokens()[t.spec_last(i) - 1].spec_end()
            }),
    {
        proof {
            use_type_invariant(self);
        }
        self.tree.text_range(self.id)
    }

    pub fn has_error(self) -> (r: bool)
        ensures
            r == self.spec_tree().spec_has_error(self.spec_id().spec_index()),
    {
        proof {
            use_type_invariant(self);
        }
        match self.tree.has_error(self.id) {
            Some(e) => e,
            None => true,
        }
    }

    pub fn children(self) -> (r: Vec<SyntaxNode<'a>>)
        ensures
            r@.len() == self.spec_tree().spec_children(self.spec_id().spec_index()).len(),
            forall|k: int|
                0 <= k < r@.len() ==> (#[trigger] r@[k]).spec_id() == self.spec_tree().spec_children(
                    self.spec_id().spec_index(),
                )[k] && r@[k].spec_tree() == self.spec_tree(),
    {
        proof {
            use_type_invariant(self);
        }
        let ids = match self.tree.children(self.id) {
            Some(ids) => ids,
            None => Vec::new(),
        };
        SyntaxNode::wrap(self.tree, ids)
    }

    fn wrap(tree: &'a SyntaxTree, ids: Vec<NodeId>) -> (r: Vec<SyntaxNode<'a>>)
        requires
            forall|k: int| 0 <= k < ids@.len() ==> tree.valid(#[trigger] ids@[k]),
        ensures
            r@.len() == ids@.len(),
            forall|k: int|
                0 <= k < r@.len() ==> (#[trigger] r@[k]).spec_id() == ids@[k] && r@[k].spec_tree()
                    == tree,
    {
        let mut result: Vec<SyntaxNode<'a>> = Vec::new();
        let mut k: usize = 0;
        while k < ids.len()
            invariant
                k <= ids@.len(),
                result@.len() == k,
                forall|j: int| 0 <= j < ids@.len() ==> tree.valid(#[trigger] ids@[j]),
                forall|j: int|
                    0 <= j < k ==> (#[trigger] result@[j]).spec_id() == ids@[j] && result@[j].spec_tree()
                        == tree,
            decreases ids@.len() - k,
        {
            let id = ids[k];
            assert(tree.valid(id));
            result.push(SyntaxNode { tree, id });
            k = k + 1;
        }
        result
    }

    /// The node, tagged with its kind.
    pub fn typed(self) -> (r: BaseSyntax<'a>)
        ensures
            r.spec_node() == self,
            r.spec_kind() == self.spec_tree().spec_kind(self.spec_id().spec_index()),
    {
        BaseSyntax::from_node(self)
    }
}

/// A node tagged with its kind.
#[derive(Clone, Copy)]
pub enum BaseSyntax<'a> {
    File(SyntaxNode<'a>),
    FileMetadata(SyntaxNode<'a>),
    AliasDefinition(SyntaxNode<'a>),
    Operation(SyntaxNode<'a>),
    DialectOperation(SyntaxNode<'a>),
    ArithConstantValue(SyntaxNode<'a>),
    UnparsedCustomOperation(SyntaxNode<'a>),
    Region(SyntaxNode<'a>),
    Block(SyntaxNode<'a>),
    Result(SyntaxNode<'a>),
    ResultGroup(SyntaxNode<'a>),
    ResultNumber(SyntaxNode<'a>),
    Operand(SyntaxNode<'a>),
    OperandUse(SyntaxNode<'a>),
    SuccessorList(SyntaxNode<'a>),
    Successor(SyntaxNode<'a>),
    SuccessorArguments(SyntaxNode<'a>),
    BlockLabel(SyntaxNode<'a>),
    BlockArgumentList(SyntaxNode<'a>),
    BlockArgument(SyntaxNode<'a>),
    PropertyDict(SyntaxNode<'a>),
    AttributeDict(SyntaxNode<'a>),
    Attribute(SyntaxNode<'a>),
    IntegerType(SyntaxNode<'a>),
    FloatType(SyntaxNode<'a>),
    IndexType(SyntaxNode<'a>),
    IntegerAttribute(SyntaxNode<'a>),
    FloatAttribute(SyntaxNode<'a>),
    BooleanAttribute(SyntaxNode<'a>),
    StringAttribute(SyntaxNode<'a>),
    TypeAttribute(SyntaxNode<'a>),
    AttributeAlias(SyntaxNode<'a>),
    TypeAlias(SyntaxNode<'a>),
    SymbolReference(SyntaxNode<'a>),
    ArrayAttribute(SyntaxNode<'a>),
    DictionaryAttribute(SyntaxNode<'a>),
    LocationAttribute(SyntaxNode<'a>),
    UnknownLocation(SyntaxNode<'a>),
    FileLineColLocation(SyntaxNode<'a>),
    NameLocation(SyntaxNode<'a>),
    CallSiteLocation(SyntaxNode<'a>),
    FusedLocation(SyntaxNode<'a>),
    TrailingLocation(SyntaxNode<'a>),
    FunctionType(SyntaxNode<'a>),
    TupleType(SyntaxNode<'a>),
    TensorType(SyntaxNode<'a>),
    VectorType(SyntaxNode<'a>),
    MemRefType(SyntaxNode<'a>),
    ShapedDimension(SyntaxNode<'a>),
    TensorEncoding(SyntaxNode<'a>),
    MemRefLayout(SyntaxNode<'a>),
    MemRefMemorySpace(SyntaxNode<'a>),
    StridedLayout(SyntaxNode<'a>),
    AffineMap(SyntaxNode<'a>),
    IntegerSet(SyntaxNode<'a>),
    AffineExpression(SyntaxNode<'a>),
    AffineConstraint(SyntaxNode<'a>),
    DenseElementsAttribute(SyntaxNode<'a>),
    SparseElementsAttribute(SyntaxNode<'a>),
    DenseResourceElementsAttribute(SyntaxNode<'a>),
    WideNumber(SyntaxNode<'a>),
    OpaqueAttribute(SyntaxNode<'a>),
    OpaqueAttributeBody(SyntaxNode<'a>),
    OpaqueType(SyntaxNode<'a>),
    OpaqueTypeBody(SyntaxNode<'a>),
    Error(SyntaxNode<'a>),
}

impl<'a> BaseSyntax<'a> {
    pub open spec fn spec_node(self) -> SyntaxNode<'a> {
        match self {
            BaseSyntax::File(node) => node,
            BaseSyntax::FileMetadata(node) => node,
            BaseSyntax::AliasDefinition(node) => node,
            BaseSyntax::Operation(node) => node,
            BaseSyntax::DialectOperation(node) => node,
            BaseSyntax::ArithConstantValue(node) => node,
            BaseSyntax::UnparsedCustomOperation(node) => node,
            BaseSyntax::Region(node) => node,
            BaseSyntax::Block(node) => node,
            BaseSyntax::Result(node) => node,
            BaseSyntax::ResultGroup(node) => node,
            BaseSyntax::ResultNumber(node) => node,
            BaseSyntax::Operand(node) => node,
            BaseSyntax::OperandUse(node) => node,
            BaseSyntax::SuccessorList(node) => node,
            BaseSyntax::Successor(node) => node,
            BaseSyntax::SuccessorArguments(node) => node,
            BaseSyntax::BlockLabel(node) => node,
            BaseSyntax::BlockArgumentList(node) => node,
            BaseSyntax::BlockArgument(node) => node,
            BaseSyntax::PropertyDict(node) => node,
            BaseSyntax::AttributeDict(node) => node,
            BaseSyntax::Attribute(node) => node,
            BaseSyntax::IntegerType(node) => node,
            BaseSyntax::FloatType(node) => node,
            BaseSyntax::IndexType(node) => node,
            BaseSyntax::IntegerAttribute(node) => node,
            BaseSyntax::FloatAttribute(node) => node,
            BaseSyntax::BooleanAttribute(node) => node,
            BaseSyntax::StringAttribute(node) => node,
            BaseSyntax::TypeAttribute(node) => node,
            BaseSyntax::AttributeAlias(node) => node,
            BaseSyntax::TypeAlias(node) => node,
            BaseSyntax::SymbolReference(node) => node,
            BaseSyntax::ArrayAttribute(node) => node,
            BaseSyntax::DictionaryAttribute(node) => node,
            BaseSyntax::LocationAttribute(node) => node,
            BaseSyntax::UnknownLocation(node) => node,
            BaseSyntax::FileLineColLocation(node) => node,
            BaseSyntax::NameLocation(node) => node,
            BaseSyntax::CallSiteLocation(node) => node,
            BaseSyntax::FusedLocation(node) => node,
            BaseSyntax::TrailingLocation(node) => node,
            BaseSyntax::FunctionType(node) => node,
            BaseSyntax::TupleType(node) => node,
            BaseSyntax::TensorType(node) => node,
            BaseSyntax::VectorType(node) => node,
            BaseSyntax::MemRefType(node) => node,
            BaseSyntax::ShapedDimension(node) => node,
            BaseSyntax::TensorEncoding(node) => node,
            BaseSyntax::MemRefLayout(node) => node,
            BaseSyntax::MemRefMemorySpace(node) => node,
            BaseSyntax::StridedLayout(node) => node,
            BaseSyntax::AffineMap(node) => node,
            BaseSyntax::IntegerSet(node) => node,
            BaseSyntax::AffineExpression(node) => node,
            BaseSyntax::AffineConstraint(node) => node,
            BaseSyntax::DenseElementsAttribute(node) => node,
            BaseSyntax::SparseElementsAttribute(node) => node,
            BaseSyntax::DenseResourceElementsAttribute(node) => node,
            BaseSyntax::WideNumber(node) => node,
            BaseSyntax::OpaqueAttribute(node) => node,
            BaseSyntax::OpaqueAttributeBody(node) => node,
            BaseSyntax::OpaqueType(node) => node,
            BaseSyntax::OpaqueTypeBody(node) => node,
            BaseSyntax::Error(node) => node,
        }
    }

    pub open spec fn spec_kind(self) -> SyntaxKind {
        match self {
            BaseSyntax::File(_) => SyntaxKind::File,
            BaseSyntax::FileMetadata(_) => SyntaxKind::FileMetadata,
            BaseSyntax::AliasDefinition(_) => SyntaxKind::AliasDefinition,
            BaseSyntax::Operation(_) => SyntaxKind::Operation,
            BaseSyntax::DialectOperation(_) => SyntaxKind::DialectOperation,
            BaseSyntax::ArithConstantValue(_) => SyntaxKind::ArithConstantValue,
            BaseSyntax::UnparsedCustomOperation(_) => SyntaxKind::UnparsedCustomOperation,
            BaseSyntax::Region(_) => SyntaxKind::Region,
            BaseSyntax::Block(_) => SyntaxKind::Block,
            BaseSyntax::Result(_) => SyntaxKind::Result,
            BaseSyntax::ResultGroup(_) => SyntaxKind::ResultGroup,
            BaseSyntax::ResultNumber(_) => SyntaxKind::ResultNumber,
            BaseSyntax::Operand(_) => SyntaxKind::Operand,
            BaseSyntax::OperandUse(_) => SyntaxKind::OperandUse,
            BaseSyntax::SuccessorList(_) => SyntaxKind::SuccessorList,
            BaseSyntax::Successor(_) => SyntaxKind::Successor,
            BaseSyntax::SuccessorArguments(_) => SyntaxKind::SuccessorArguments,
            BaseSyntax::BlockLabel(_) => SyntaxKind::BlockLabel,
            BaseSyntax::BlockArgumentList(_) => SyntaxKind::BlockArgumentList,
            BaseSyntax::BlockArgument(_) => SyntaxKind::BlockArgument,
            BaseSyntax::PropertyDict(_) => SyntaxKind::PropertyDict,
            BaseSyntax::AttributeDict(_) => SyntaxKind::AttributeDict,
            BaseSyntax::Attribute(_) => SyntaxKind::Attribute,
            BaseSyntax::IntegerType(_) => SyntaxKind::IntegerType,
            BaseSyntax::FloatType(_) => SyntaxKind::FloatType,
            BaseSyntax::IndexType(_) => SyntaxKind::IndexType,
            BaseSyntax::IntegerAttribute(_) => SyntaxKind::IntegerAttribute,
            BaseSyntax::FloatAttribute(_) => SyntaxKind::FloatAttribute,
            BaseSyntax::BooleanAttribute(_) => SyntaxKind::BooleanAttribute,
            BaseSyntax::StringAttribute(_) => SyntaxKind::StringAttribute,
            BaseSyntax::TypeAttribute(_) => SyntaxKind::TypeAttribute,
            BaseSyntax::AttributeAlias(_) => SyntaxKind::AttributeAlias,
            BaseSyntax::TypeAlias(_) => SyntaxKind::TypeAlias,
            BaseSyntax::SymbolReference(_) => SyntaxKind::SymbolReference,
            BaseSyntax::ArrayAttribute(_) => SyntaxKind::ArrayAttribute,
            BaseSyntax::DictionaryAttribute(_) => SyntaxKind::DictionaryAttribute,
            BaseSyntax::LocationAttribute(_) => SyntaxKind::LocationAttribute,
            BaseSyntax::UnknownLocation(_) => SyntaxKind::UnknownLocation,
            BaseSyntax::FileLineColLocation(_) => SyntaxKind::FileLineColLocation,
            BaseSyntax::NameLocation(_) => SyntaxKind::NameLocation,
            BaseSyntax::CallSiteLocation(_) => SyntaxKind::CallSiteLocation,
            BaseSyntax::FusedLocation(_) => SyntaxKind::FusedLocation,
            BaseSyntax::TrailingLocation(_) => SyntaxKind::TrailingLocation,
            BaseSyntax::FunctionType(_) => SyntaxKind::FunctionType,
            BaseSyntax::TupleType(_) => SyntaxKind::TupleType,
            BaseSyntax::TensorType(_) => SyntaxKind::TensorType,
            BaseSyntax::VectorType(_) => SyntaxKind::VectorType,
            BaseSyntax::MemRefType(_) => SyntaxKind::MemRefType,
            BaseSyntax::ShapedDimension(_) => SyntaxKind::ShapedDimension,
            BaseSyntax::TensorEncoding(_) => SyntaxKind::TensorEncoding,
            BaseSyntax::MemRefLayout(_) => SyntaxKind::MemRefLayout,
            BaseSyntax::MemRefMemorySpace(_) => SyntaxKind::MemRefMemorySpace,
            BaseSyntax::StridedLayout(_) => SyntaxKind::StridedLayout,
            BaseSyntax::AffineMap(_) => SyntaxKind::AffineMap,
            BaseSyntax::IntegerSet(_) => SyntaxKind::IntegerSet,
            BaseSyntax::AffineExpression(_) => SyntaxKind::AffineExpression,
            BaseSyntax::AffineConstraint(_) => SyntaxKind::AffineConstraint,
            BaseSyntax::DenseElementsAttribute(_) => SyntaxKind::DenseElementsAttribute,
            BaseSyntax::SparseElementsAttribute(_) => SyntaxKind::SparseElementsAttribute,
            BaseSyntax::DenseResourceElementsAttribute(_) => SyntaxKind::DenseResourceElementsAttribute,
            BaseSyntax::WideNumber(_) => SyntaxKind::WideNumber,
            BaseSyntax::OpaqueAttribute(_) => SyntaxKind::OpaqueAttribute,
            BaseSyntax::OpaqueAttributeBody(_) => SyntaxKind::OpaqueAttributeBody,
            BaseSyntax::OpaqueType(_) => SyntaxKind::OpaqueType,
            BaseSyntax::OpaqueTypeBody(_) => SyntaxKind::OpaqueTypeBody,
            BaseSyntax::Error(_) => SyntaxKind::Error,
        }
    }

    /// Tags a node with its kind.
    pub fn from_node(node: SyntaxNode<'a>) -> (r: BaseSyntax<'a>)
        ensures
            r.spec_node() == node,
            r.spec_kind() == node.spec_tree().spec_kind(node.spec_id().spec_index()),
    {
        match node.kind() {
            SyntaxKind::File => BaseSyntax::File(node),
            SyntaxKind::FileMetadata => BaseSyntax::FileMetadata(node),
            SyntaxKind::AliasDefinition => BaseSyntax::AliasDefinition(node),
            SyntaxKind::Operation => BaseSyntax::Operation(node),
            SyntaxKind::DialectOperation => BaseSyntax::DialectOperation(node),
            SyntaxKind::ArithConstantValue => BaseSyntax::ArithConstantValue(node),
            SyntaxKind::UnparsedCustomOperation => BaseSyntax::UnparsedCustomOperation(node),
            SyntaxKind::Region => BaseSyntax::Region(node),
            SyntaxKind::Block => BaseSyntax::Block(node),
            SyntaxKind::Result => BaseSyntax::Result(node),
            SyntaxKind::ResultGroup => BaseSyntax::ResultGroup(node),
            SyntaxKind::ResultNumber => BaseSyntax::ResultNumber(node),
            SyntaxKind::Operand => BaseSyntax::Operand(node),
            SyntaxKind::OperandUse => BaseSyntax::OperandUse(node),
            SyntaxKind::SuccessorList => BaseSyntax::SuccessorList(node),
            SyntaxKind::Successor => BaseSyntax::Successor(node),
            SyntaxKind::SuccessorArguments => BaseSyntax::SuccessorArguments(node),
            SyntaxKind::BlockLabel => BaseSyntax::BlockLabel(node),
            SyntaxKind::BlockArgumentList => BaseSyntax::BlockArgumentList(node),
            SyntaxKind::BlockArgument => BaseSyntax::BlockArgument(node),
            SyntaxKind::PropertyDict => BaseSyntax::PropertyDict(node),
            SyntaxKind::AttributeDict => BaseSyntax::AttributeDict(node),
            SyntaxKind::Attribute => BaseSyntax::Attribute(node),
            SyntaxKind::IntegerType => BaseSyntax::IntegerType(node),
            SyntaxKind::FloatType => BaseSyntax::FloatType(node),
            SyntaxKind::IndexType => BaseSyntax::IndexType(node),
            SyntaxKind::IntegerAttribute => BaseSyntax::IntegerAttribute(node),
            SyntaxKind::FloatAttribute => BaseSyntax::FloatAttribute(node),
            SyntaxKind::BooleanAttribute => BaseSyntax::BooleanAttribute(node),
            SyntaxKind::StringAttribute => BaseSyntax::StringAttribute(node),
            SyntaxKind::TypeAttribute => BaseSyntax::TypeAttribute(node),
            SyntaxKind::AttributeAlias => BaseSyntax::AttributeAlias(node),
            SyntaxKind::TypeAlias => BaseSyntax::TypeAlias(node),
            SyntaxKind::SymbolReference => BaseSyntax::SymbolReference(node),
            SyntaxKind::ArrayAttribute => BaseSyntax::ArrayAttribute(node),
            SyntaxKind::DictionaryAttribute => BaseSyntax::DictionaryAttribute(node),
            SyntaxKind::LocationAttribute => BaseSyntax::LocationAttribute(node),
            SyntaxKind::UnknownLocation => BaseSyntax::UnknownLocation(node),
            SyntaxKind::FileLineColLocation => BaseSyntax::FileLineColLocation(node),
            SyntaxKind::NameLocation => BaseSyntax::NameLocation(node),
            SyntaxKind::CallSiteLocation => BaseSyntax::CallSiteLocation(node),
            SyntaxKind::FusedLocation => BaseSyntax::FusedLocation(node),
            SyntaxKind::TrailingLocation => BaseSyntax::TrailingLocation(node),
            SyntaxKind::FunctionType => BaseSyntax::FunctionType(node),
            SyntaxKind::TupleType => BaseSyntax::TupleType(node),
            SyntaxKind::TensorType => BaseSyntax::TensorType(node),
            SyntaxKind::VectorType => BaseSyntax::VectorType(node),
            SyntaxKind::MemRefType => BaseSyntax::MemRefType(node),
            SyntaxKind::ShapedDimension => BaseSyntax::ShapedDimension(node),
            SyntaxKind::TensorEncoding => BaseSyntax::TensorEncoding(node),
            SyntaxKind::MemRefLayout => BaseSyntax::MemRefLayout(node),
            SyntaxKind::MemRefMemorySpace => BaseSyntax::MemRefMemorySpace(node),
            SyntaxKind::StridedLayout => BaseSyntax::StridedLayout(node),
            SyntaxKind::AffineMap => BaseSyntax::AffineMap(node),
            SyntaxKind::IntegerSet => BaseSyntax::IntegerSet(node),
            SyntaxKind::AffineExpression => BaseSyntax::AffineExpression(node),
            SyntaxKind::AffineConstraint => BaseSyntax::AffineConstraint(node),
            SyntaxKind::DenseElementsAttribute => BaseSyntax::DenseElementsAttribute(node),
            SyntaxKind::SparseElementsAttribute => BaseSyntax::SparseElementsAttribute(node),
            SyntaxKind::DenseResourceElementsAttribute => BaseSyntax::DenseResourceElementsAttribute(node),
            SyntaxKind::WideNumber => BaseSyntax::WideNumber(node),
            SyntaxKind::OpaqueAttribute => BaseSyntax::OpaqueAttribute(node),
            SyntaxKind::OpaqueAttributeBody => BaseSyntax::OpaqueAttributeBody(node),
            SyntaxKind::OpaqueType => BaseSyntax::OpaqueType(node),
            SyntaxKind::OpaqueTypeBody => BaseSyntax::OpaqueTypeBody(node),
            SyntaxKind::Error => BaseSyntax::Error(node),
        }
    }

    /// The tagged node.
    pub fn node(self) -> (r: SyntaxNode<'a>)
        ensures
            r == self.spec_node(),
    {
        match self {
            BaseSyntax::File(node) => node,
            BaseSyntax::FileMetadata(node) => node,
            BaseSyntax::AliasDefinition(node) => node,
            BaseSyntax::Operation(node) => node,
            BaseSyntax::DialectOperation(node) => node,
            BaseSyntax::ArithConstantValue(node) => node,
            BaseSyntax::UnparsedCustomOperation(node) => node,
            BaseSyntax::Region(node) => node,
            BaseSyntax::Block(node) => node,
            BaseSyntax::Result(node) => node,
            BaseSyntax::ResultGroup(node) => node,
            BaseSyntax::ResultNumber(node) => node,
            BaseSyntax::Operand(node) => node,
            BaseSyntax::OperandUse(node) => node,
            BaseSyntax::SuccessorList(node) => node,
            BaseSyntax::Successor(node) => node,
            BaseSyntax::SuccessorArguments(node) => node,
            BaseSyntax::BlockLabel(node) => node,
            BaseSyntax::BlockArgumentList(node) => node,
            BaseSyntax::BlockArgument(node) => node,
            BaseSyntax::PropertyDict(node) => node,
            BaseSyntax::AttributeDict(node) => node,
            BaseSyntax::Attribute(node) => node,
            BaseSyntax::IntegerType(node) => node,
            BaseSyntax::FloatType(node) => node,
            BaseSyntax::IndexType(node) => node,
            BaseSyntax::IntegerAttribute(node) => node,
            BaseSyntax::FloatAttribute(node) => node,
            BaseSyntax::BooleanAttribute(node) => node,
            BaseSyntax::StringAttribute(node) => node,
            BaseSyntax::TypeAttribute(node) => node,
            BaseSyntax::AttributeAlias(node) => node,
            BaseSyntax::TypeAlias(node) => node,
            BaseSyntax::SymbolReference(node) => node,
            BaseSyntax::ArrayAttribute(node) => node,
            BaseSyntax::DictionaryAttribute(node) => node,
            BaseSyntax::LocationAttribute(node) => node,
            BaseSyntax::UnknownLocation(node) => node,
            BaseSyntax::FileLineColLocation(node) => node,
            BaseSyntax::NameLocation(node) => node,
            BaseSyntax::CallSiteLocation(node) => node,
            BaseSyntax::FusedLocation(node) => node,
            BaseSyntax::TrailingLocation(node) => node,
            BaseSyntax::FunctionType(node) => node,
            BaseSyntax::TupleType(node) => node,
            BaseSyntax::TensorType(node) => node,
            BaseSyntax::VectorType(node) => node,
            BaseSyntax::MemRefType(node) => node,
            BaseSyntax::ShapedDimension(node) => node,
            BaseSyntax::TensorEncoding(node) => node,
            BaseSyntax::MemRefLayout(node) => node,
            BaseSyntax::MemRefMemorySpace(node) => node,
            BaseSyntax::StridedLayout(node) => node,
            BaseSyntax::AffineMap(node) => node,
            BaseSyntax::IntegerSet(node) => node,
            BaseSyntax::AffineExpression(node) => node,
            BaseSyntax::AffineConstraint(node) => node,
            BaseSyntax::DenseElementsAttribute(node) => node,
            BaseSyntax::SparseElementsAttribute(node) => node,
            BaseSyntax::DenseResourceElementsAttribute(node) => node,
            BaseSyntax::WideNumber(node) => node,
            BaseSyntax::OpaqueAttribute(node) => node,
            BaseSyntax::OpaqueAttributeBody(node) => node,
            BaseSyntax::OpaqueType(node) => node,
            BaseSyntax::OpaqueTypeBody(node) => node,
            BaseSyntax::Error(node) => node,
        }
    }
}


impl<'a> PayloadAttributeSyntax<'a> {
    pub fn kind(self) -> (r: Option<SyntaxKind>)
        ensures
            r == (if self.spec_tree().valid(self.spec_id()) {
                Some(self.spec_tree().spec_kind(self.spec_id().spec_index()))
            } else {
                None
            }),
    {
        self.tree.kind(self.id)
    }

    /// The bytes inside the attribute's `<...>`.
    pub fn payload_range(self) -> (r: Option<TextRange>)
        ensures
            range_is(r, delimited_inner_bounds(node_tokens(self.spec_tree(), self.spec_id()))),
    {
        delimited_inner_range(self.tree, self.id)
    }

    /// For a dense-resource attribute, the bytes of its resource handle.
    pub fn handle_range(self) -> (r: Option<TextRange>)
        ensures
            if self.spec_tree().valid(self.spec_id()) && self.spec_tree().spec_kind(
                self.spec_id().spec_index(),
            ) == SyntaxKind::DenseResourceElementsAttribute {
                range_is(r, delimited_inner_bounds(node_tokens(self.spec_tree(), self.spec_id())))
            } else {
                r is None
            },
    {
        if self.tree.kind(self.id) == Some(SyntaxKind::DenseResourceElementsAttribute) {
            delimited_inner_range(self.tree, self.id)
        } else {
            None
        }
    }

    /// The bytes of the attribute's type, after its last `:`.
    pub fn type_range(self) -> (r: Option<TextRange>)
        ensures
            range_is(r, suffix_type_bounds(node_tokens(self.spec_tree(), self.spec_id()))),
    {
        suffix_type_range(self.tree, self.id)
    }
}

impl<'a> OpaqueBodySyntax<'a> {
    pub fn kind(self) -> (r: Option<SyntaxKind>)
        ensures
            r == (if self.spec_tree().valid(self.spec_id()) {
                Some(self.spec_tree().spec_kind(self.spec_id().spec_index()))
            } else {
                None
            }),
    {
        self.tree.kind(self.id)
    }

    /// The bytes inside the body's `<...>`.
    pub fn body_range(self) -> (r: Option<TextRange>)
        ensures
            range_is(r, delimited_inner_bounds(node_tokens(self.spec_tree(), self.spec_id()))),
    {
        delimited_inner_range(self.tree, self.id)
    }
}

impl<'a> WideNumberSyntax<'a> {
    /// The range of the wide integer literal.
    pub fn literal_range(self) -> (r: Option<TextRange>)
        ensures
            r == (match first_kind_from(
                node_tokens(self.spec_tree(), self.spec_id()),
                0,
                TokenKind::WideInteger,
            ) {
                Some(k) => Some(node_tokens(self.spec_tree(), self.spec_id())[k].spec_range()),
                None => None,
            }),
    {
        let tokens = match self.tree.tokens(self.id) {
            None => {
                return None;
            },
            Some(t) => t,
        };
        match first_kind_exec(tokens, 0, TokenKind::WideInteger) {
            None => None,
            Some(k) => Some(tokens[k].range()),
        }
    }

    /// The bytes of the literal's type, after its last `:`.
    pub fn type_range(self) -> (r: Option<TextRange>)
        ensures
            range_is(r, suffix_type_bounds(node_tokens(self.spec_tree(), self.spec_id()))),
    {
        suffix_type_range(self.tree, self.id)
    }
}

impl<'a> OperationSyntax<'a> {
    /// The range of the operation's name.
    pub fn mnemonic_range(self) -> (r: Option<TextRange>)
        ensures
            r == (match mnemonic_index(node_tokens(self.spec_tree(), self.spec_id())) {
                Some(k) => Some(node_tokens(self.spec_tree(), self.spec_id())[k].spec_range()),
                None => None,
            }),
    {
        let tokens = match self.tree.tokens(self.id) {
            None => {
                return None;
            },
            Some(t) => t,
        };
        match mnemonic_index_exec(tokens) {
            None => None,
            Some(k) => Some(tokens[k].range()),
        }
    }

    /// A leading `@symbol` of the operation header, before its attributes and regions.
    pub fn leading_symbol_range(self) -> (r: Option<TextRange>)
        ensures
            r == (match leading_symbol_index(self.spec_tree(), self.spec_id()) {
                Some(k) => Some(node_tokens(self.spec_tree(), self.spec_id())[k].spec_range()),
                None => None,
            }),
    {
        match self.leading_symbol_index() {
            None => None,
            Some((tokens, k)) => Some(tokens[k].range()),
        }
    }

    fn leading_symbol_index(self) -> (r: Option<(&'a [Token], usize)>)
        ensures
            match r {
                Some((tokens, k)) => tokens@ == node_tokens(self.spec_tree(), self.spec_id())
                    && leading_symbol_index(self.spec_tree(), self.spec_id()) == Some(k as int)
                    && k < tokens@.len(),
                None => leading_symbol_index(self.spec_tree(), self.spec_id()) is None,
            },
    {
        let tokens = match self.tree.tokens(self.id) {
            None => {
                return None;
            },
            Some(t) => t,
        };
        let m = match mnemonic_index_exec(tokens) {
            None => {
                return None;
            },
            Some(m) => m,
        };
        let operation = match node_range(self.tree, self.id) {
            None => {
                return None;
            },
            Some(range) => range,
        };
        let limit = match header_end(self.tree, self.id) {
            Some(h) => h,
            None => operation.end(),
        };
        match first_kind_within_exec(tokens, tokens[m].range().end(), limit, TokenKind::AtIdentifier) {
            None => None,
            Some(k) => Some((tokens, k)),
        }
    }

    /// A visibility keyword just before the leading symbol.
    pub fn visibility_range(self) -> (r: Option<TextRange>)
        ensures
            r == (match visibility_index(self.spec_tree(), self.spec_id()) {
                Some(k) => Some(node_tokens(self.spec_tree(), self.spec_id())[k].spec_range()),
                None => None,
            }),
    {
        let (tokens, symbol) = match self.leading_symbol_index() {
            None => {
                return None;
            },
            Some(found) => found,
        };
        let m = match mnemonic_index_exec(tokens) {
            None => {
                return None;
            },
            Some(m) => m,
        };
        match first_kind_within_exec(
            tokens,
            tokens[m].range().end(),
            tokens[symbol].range().start(),
            TokenKind::BareIdentifier,
        ) {
            None => None,
            Some(k) => Some(tokens[k].range()),
        }
    }

    /// The result part of a func-like signature, arrow included; `source` is the file's text.
    pub fn function_result_range(self, source: &[u8]) -> (r: Option<TextRange>)
        ensures
            range_is(r, function_result_bounds(self.spec_tree(), self.spec_id(), source@)),
    {
        let list = match child_of_kind(self.tree, self.id, SyntaxKind::BlockArgumentList) {
            None => {
                return None;
            },
            Some(list) => list,
        };
        let arguments = match node_range(self.tree, list) {
            None => {
                return None;
            },
            Some(range) => range,
        };
        let tokens = match self.tree.tokens(self.id) {
            None => {
                return None;
            },
            Some(t) => t,
        };
        let operation = match node_range(self.tree, self.id) {
            None => {
                return None;
            },
            Some(range) => range,
        };
        let boundary = match result_boundary_exec(self.tree, self.id, tokens, source) {
            Some(b) => b,
            None => operation.end(),
        };
        let arrow = match first_kind_within_exec(tokens, arguments.end(), boundary, TokenKind::Arrow) {
            None => {
                return None;
            },
            Some(a) => a,
        };
        let arrow_start = tokens[arrow].range().start();
        let last = match last_nontrivia_within_exec(tokens, arrow_start, boundary) {
            None => {
                return None;
            },
            Some(l) => l,
        };
        let last = if spells_attributes_exec(source, tokens[last]) {
            match last_nontrivia_within_exec(tokens, arrow_start, tokens[last].range().start()) {
                None => {
                    return None;
                },
                Some(l) => l,
            }
        } else {
            last
        };
        TextRange::new(arrow_start, tokens[last].range().end())
    }

    /// The direct parts of the operation.
    pub fn components(self) -> (r: Vec<OperationComponentSyntax<'a>>)
        ensures
            r@.len() == (kids(self.spec_tree(), self.spec_id())).len(),
            forall|k: int|
                0 <= k < r@.len() ==> (#[trigger] r@[k]).spec_id() == (kids(self.spec_tree(), self.spec_id()))[k] && r@[k].spec_tree()
                    == self.spec_tree(),
    {
        let ids = match self.tree.children(self.id) {
            Some(ids) => ids,
            None => Vec::new(),
        };
        OperationComponentSyntax::wrap(self.tree, ids)
    }

    /// The range of the argument list of a func-like operation.
    pub fn argument_list_range(self) -> (r: Option<TextRange>)
        ensures
            match first_of_kind(self.spec_tree(), kids(self.spec_tree(), self.spec_id()), SyntaxKind::BlockArgumentList) {
                Some(c) => range_is(r, node_bounds(self.spec_tree(), c)),
                None => r is None,
            },
    {
        match child_of_kind(self.tree, self.id, SyntaxKind::BlockArgumentList) {
            Some(c) => node_range(self.tree, c),
            None => None,
        }
    }

    /// The range of the operation's function type.
    pub fn function_type_range(self) -> (r: Option<TextRange>)
        ensures
            match first_of_kind(self.spec_tree(), kids(self.spec_tree(), self.spec_id()), SyntaxKind::FunctionType) {
                Some(c) => range_is(r, node_bounds(self.spec_tree(), c)),
                None => r is None,
            },
    {
        match child_of_kind(self.tree, self.id, SyntaxKind::FunctionType) {
            Some(c) => node_range(self.tree, c),
            None => None,
        }
    }

    /// The result groups, in order.
    pub fn results(self) -> (r: Vec<ResultGroupSyntax<'a>>)
        ensures
            r@.len() == (children_of_kinds(self.spec_tree(), of_kind(self.spec_tree(), kids(self.spec_tree(), self.spec_id()), SyntaxKind::Result), SyntaxKind::ResultGroup)).len(),
            forall|k: int|
                0 <= k < r@.len() ==> (#[trigger] r@[k]).spec_id() == (children_of_kinds(self.spec_tree(), of_kind(self.spec_tree(), kids(self.spec_tree(), self.spec_id()), SyntaxKind::Result), SyntaxKind::ResultGroup))[k] && r@[k].spec_tree()
                    == self.spec_tree(),
    {
        let parents = children_of_kind(self.tree, self.id, SyntaxKind::Result);
        let ids = children_of_kind_all(self.tree, &parents, SyntaxKind::ResultGroup);
        ResultGroupSyntax::wrap(self.tree, ids)
    }

    /// The operand uses, in order.
    pub fn operands(self) -> (r: Vec<OperandUseSyntax<'a>>)
        ensures
            r@.len() == (children_of_kinds(self.spec_tree(), of_kind(self.spec_tree(), kids(self.spec_tree(), self.spec_id()), SyntaxKind::Operand), SyntaxKind::OperandUse)).len(),
            forall|k: int|
                0 <= k < r@.len() ==> (#[trigger] r@[k]).spec_id() == (children_of_kinds(self.spec_tree(), of_kind(self.spec_tree(), kids(self.spec_tree(), self.spec_id()), SyntaxKind::Operand), SyntaxKind::OperandUse))[k] && r@[k].spec_tree()
                    == self.spec_tree(),
    {
        let parents = children_of_kind(self.tree, self.id, SyntaxKind::Operand);
        let ids = children_of_kind_all(self.tree, &parents, SyntaxKind::OperandUse);
        OperandUseSyntax::wrap(self.tree, ids)
    }

    /// The arguments of a func-like operation, in order.
    pub fn arguments(self) -> (r: Vec<BlockArgumentSyntax<'a>>)
        ensures
            r@.len() == (children_of_kinds(self.spec_tree(), of_kind(self.spec_tree(), kids(self.spec_tree(), self.spec_id()), SyntaxKind::BlockArgumentList), SyntaxKind::BlockArgument)).len(),
            forall|k: int|
                0 <= k < r@.len() ==> (#[trigger] r@[k]).spec_id() == (children_of_kinds(self.spec_tree(), of_kind(self.spec_tree(), kids(self.spec_tree(), self.spec_id()), SyntaxKind::BlockArgumentList), SyntaxKind::BlockArgument))[k] && r@[k].spec_tree()
                    == self.spec_tree(),
    {
        let parents = children_of_kind(self.tree, self.id, SyntaxKind::BlockArgumentList);
        let ids = children_of_kind_all(self.tree, &parents, SyntaxKind::BlockArgument);
        BlockArgumentSyntax::wrap(self.tree, ids)
    }

    /// The successors, in order.
    pub fn successors(self) -> (r: Vec<SuccessorSyntax<'a>>)
        ensures
            r@.len() == (children_of_kinds(self.spec_tree(), of_kind(self.spec_tree(), kids(self.spec_tree(), self.spec_id()), SyntaxKind::SuccessorList), SyntaxKind::Successor)).len(),
            forall|k: int|
                0 <= k < r@.len() ==> (#[trigger] r@[k]).spec_id() == (children_of_kinds(self.spec_tree(), of_kind(self.spec_tree(), kids(self.spec_tree(), self.spec_id()), SyntaxKind::SuccessorList), SyntaxKind::Successor))[k] && r@[k].spec_tree()
                    == self.spec_tree(),
    {
        let parents = children_of_kind(self.tree, self.id, SyntaxKind::SuccessorList);
        let ids = children_of_kind_all(self.tree, &parents, SyntaxKind::Successor);
        SuccessorSyntax::wrap(self.tree, ids)
    }

    /// The regions, in order.
    pub fn regions(self) -> (r: Vec<RegionSyntax<'a>>)
        ensures
            r@.len() == (of_kind(self.spec_tree(), kids(self.spec_tree(), self.spec_id()), SyntaxKind::Region)).len(),
            forall|k: int|
                0 <= k < r@.len() ==> (#[trigger] r@[k]).spec_id() == (of_kind(self.spec_tree(), kids(self.spec_tree(), self.spec_id()), SyntaxKind::Region))[k] && r@[k].spec_tree()
                    == self.spec_tree(),
    {
        let ids = children_of_kind(self.tree, self.id, SyntaxKind::Region);
        RegionSyntax::wrap(self.tree, ids)
    }

    /// The property dictionary.
    pub fn properties(self) -> (r: Option<PropertyDictSyntax<'a>>)
        ensures
            r is Some <==> (first_of_kind(self.spec_tree(), kids(self.spec_tree(), self.spec_id()), SyntaxKind::PropertyDict)) is Some,
            r matches Some(v) ==> Some(v.spec_id()) == (first_of_kind(self.spec_tree(), kids(self.spec_tree(), self.spec_id()), SyntaxKind::PropertyDict)) && v.spec_tree() == self.spec_tree(),
    {
        match child_of_kind(self.tree, self.id, SyntaxKind::PropertyDict) {
            Some(id) => Some(PropertyDictSyntax { tree: self.tree, id }),
            None => None,
        }
    }

    /// The attribute dictionary.
    pub fn attributes(self) -> (r: Option<AttributeDictSyntax<'a>>)
        ensures
            r is Some <==> (first_of_kind(self.spec_tree(), kids(self.spec_tree(), self.spec_id()), SyntaxKind::AttributeDict)) is Some,
            r matches Some(v) ==> Some(v.spec_id()) == (first_of_kind(self.spec_tree(), kids(self.spec_tree(), self.spec_id()), SyntaxKind::AttributeDict)) && v.spec_tree() == self.spec_tree(),
    {
        match child_of_kind(self.tree, self.id, SyntaxKind::AttributeDict) {
            Some(id) => Some(AttributeDictSyntax { tree: self.tree, id }),
            None => None,
        }
    }

    /// The trailing location.
    pub fn trailing_location(self) -> (r: Option<TrailingLocationSyntax<'a>>)
        ensures
            r is Some <==> (first_of_kind(self.spec_tree(), kids(self.spec_tree(), self.spec_id()), SyntaxKind::TrailingLocation)) is Some,
            r matches Some(v) ==> Some(v.spec_id()) == (first_of_kind(self.spec_tree(), kids(self.spec_tree(), self.spec_id()), SyntaxKind::TrailingLocation)) && v.spec_tree() == self.spec_tree(),
    {
        match child_of_kind(self.tree, self.id, SyntaxKind::TrailingLocation) {
            Some(id) => Some(TrailingLocationSyntax { tree: self.tree, id }),
            None => None,
        }
    }
}

impl<'a> BlockArgumentSyntax<'a> {
    /// The range of the argument's attribute dictionary.
    pub fn attribute_range(self) -> (r: Option<TextRange>)
        ensures
            match first_of_kind(self.spec_tree(), kids(self.spec_tree(), self.spec_id()), SyntaxKind::AttributeDict) {
                Some(c) => range_is(r, node_bounds(self.spec_tree(), c)),
                None => r is None,
            },
    {
        match child_of_kind(self.tree, self.id, SyntaxKind::AttributeDict) {
            Some(c) => node_range(self.tree, c),
            None => None,
        }
    }
}

impl<'a> SuccessorArgumentsSyntax<'a> {
    /// The arguments, in order.
    pub fn arguments(self) -> (r: Vec<BlockArgumentSyntax<'a>>)
        ensures
            r@.len() == (of_kind(self.spec_tree(), kids(self.spec_tree(), self.spec_id()), SyntaxKind::BlockArgument)).len(),
            forall|k: int|
                0 <= k < r@.len() ==> (#[trigger] r@[k]).spec_id() == (of_kind(self.spec_tree(), kids(self.spec_tree(), self.spec_id()), SyntaxKind::BlockArgument))[k] && r@[k].spec_tree()
                    == self.spec_tree(),
    {
        let ids = children_of_kind(self.tree, self.id, SyntaxKind::BlockArgument);
        BlockArgumentSyntax::wrap(self.tree, ids)
    }
}

impl<'a> ResultGroupSyntax<'a> {
    /// The count of results in the group, if written.
    pub fn number(self) -> (r: Option<NodeId>)
        ensures
            r == first_of_kind(self.spec_tree(), kids(self.spec_tree(), self.spec_id()), SyntaxKind::ResultNumber),
    {
        child_of_kind(self.tree, self.id, SyntaxKind::ResultNumber)
    }
}

impl<'a> SuccessorSyntax<'a> {
    /// The argument list of the successor.
    pub fn arguments_group(self) -> (r: Option<SuccessorArgumentsSyntax<'a>>)
        ensures
            r is Some <==> (first_of_kind(self.spec_tree(), kids(self.spec_tree(), self.spec_id()), SyntaxKind::SuccessorArguments)) is Some,
            r matches Some(v) ==> Some(v.spec_id()) == (first_of_kind(self.spec_tree(), kids(self.spec_tree(), self.spec_id()), SyntaxKind::SuccessorArguments)) && v.spec_tree() == self.spec_tree(),
    {
        match child_of_kind(self.tree, self.id, SyntaxKind::SuccessorArguments) {
            Some(id) => Some(SuccessorArgumentsSyntax { tree: self.tree, id }),
            None => None,
        }
    }

    /// The arguments of the successor, in order.
    pub fn arguments(self) -> (r: Vec<BlockArgumentSyntax<'a>>)
        ensures
            r@.len() == (children_of_kinds(self.spec_tree(), of_kind(self.spec_tree(), kids(self.spec_tree(), self.spec_id()), SyntaxKind::SuccessorArguments), SyntaxKind::BlockArgument)).len(),
            forall|k: int|
                0 <= k < r@.len() ==> (#[trigger] r@[k]).spec_id() == (children_of_kinds(self.spec_tree(), of_kind(self.spec_tree(), kids(self.spec_tree(), self.spec_id()), SyntaxKind::SuccessorArguments), SyntaxKind::BlockArgument))[k] && r@[k].spec_tree()
                    == self.spec_tree(),
    {
        let parents = children_of_kind(self.tree, self.id, SyntaxKind::SuccessorArguments);
        let ids = children_of_kind_all(self.tree, &parents, SyntaxKind::BlockArgument);
        BlockArgumentSyntax::wrap(self.tree, ids)
    }
}

impl<'a> RegionSyntax<'a> {
    /// The first block of the region.
    pub fn implicit_block(self) -> (r: Option<NodeId>)
        ensures
            r == first_of_kind(self.spec_tree(), kids(self.spec_tree(), self.spec_id()), SyntaxKind::Block),
    {
        child_of_kind(self.tree, self.id, SyntaxKind::Block)
    }

    /// The blocks, in order.
    pub fn blocks(self) -> (r: Vec<BlockSyntax<'a>>)
        ensures
            r@.len() == (of_kind(self.spec_tree(), kids(self.spec_tree(), self.spec_id()), SyntaxKind::Block)).len(),
            forall|k: int|
                0 <= k < r@.len() ==> (#[trigger] r@[k]).spec_id() == (of_kind(self.spec_tree(), kids(self.spec_tree(), self.spec_id()), SyntaxKind::Block))[k] && r@[k].spec_tree()
                    == self.spec_tree(),
    {
        let ids = children_of_kind(self.tree, self.id, SyntaxKind::Block);
        BlockSyntax::wrap(self.tree, ids)
    }
}

impl<'a> BlockSyntax<'a> {
    /// The block's label.
    pub fn label(self) -> (r: Option<NodeId>)
        ensures
            r == first_of_kind(self.spec_tree(), kids(self.spec_tree(), self.spec_id()), SyntaxKind::BlockLabel),
    {
        child_of_kind(self.tree, self.id, SyntaxKind::BlockLabel)
    }

    /// The arguments in the block's label, in order.
    pub fn arguments(self) -> (r: Vec<BlockArgumentSyntax<'a>>)
        ensures
            r@.len() == (children_of_kinds(self.spec_tree(), children_of_kinds(self.spec_tree(), of_kind(self.spec_tree(), kids(self.spec_tree(), self.spec_id()), SyntaxKind::BlockLabel), SyntaxKind::BlockArgumentList), SyntaxKind::BlockArgument)).len(),
            forall|k: int|
                0 <= k < r@.len() ==> (#[trigger] r@[k]).spec_id() == (children_of_kinds(self.spec_tree(), children_of_kinds(self.spec_tree(), of_kind(self.spec_tree(), kids(self.spec_tree(), self.spec_id()), SyntaxKind::BlockLabel), SyntaxKind::BlockArgumentList), SyntaxKind::BlockArgument))[k] && r@[k].spec_tree()
                    == self.spec_tree(),
    {
        let labels = children_of_kind(self.tree, self.id, SyntaxKind::BlockLabel);
        let lists = children_of_kind_all(self.tree, &labels, SyntaxKind::BlockArgumentList);
        let ids = children_of_kind_all(self.tree, &lists, SyntaxKind::BlockArgument);
        BlockArgumentSyntax::wrap(self.tree, ids)
    }
}

} // verus!
