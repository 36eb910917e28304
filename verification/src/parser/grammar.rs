//! The generic operation grammar: quoted and custom operations, regions, types,
//! attributes and locations, built into a lossless syntax tree. Malformed input
//! never stops the parse: it becomes error nodes and diagnostics.

use vstd::prelude::*;
use crate::lexer::{eof_terminated, Token, TokenKind};
use crate::parser::{ParseDiagnostic, ParseDiagnosticKind, ParserLimits};
use crate::dialect::{AssemblyProgram, DialectRegistry, OperationShape};
use crate::query::{utf8_or_empty, valid_utf8_bytes};
use vstd::utf8::{decode_utf8, encode_utf8_decode_utf8, valid_utf8};
use crate::dialect::{find_operation, find_shape, OperationDescriptor};
use crate::representation::{NodeInfo, SyntaxKind, TreeBuilder};
use vstd::slice::slice_subrange;

verus! {

/// How deeply types nest before the parser gives up on one.
const MAX_TYPE_DEPTH: usize = 64;

pub open spec fn spec_is_trivia(kind: TokenKind) -> bool {
    kind == TokenKind::Whitespace || kind == TokenKind::LineComment
}

fn is_trivia(kind: TokenKind) -> (r: bool)
    ensures
        r == spec_is_trivia(kind),
{
    kind == TokenKind::Whitespace || kind == TokenKind::LineComment
}

/// The closing delimiter of an opening one.
pub open spec fn closer_of(kind: TokenKind) -> Option<TokenKind> {
    match kind {
        TokenKind::Less => Some(TokenKind::Greater),
        TokenKind::LParen => Some(TokenKind::RParen),
        TokenKind::LBrace => Some(TokenKind::RBrace),
        TokenKind::LBracket => Some(TokenKind::RBracket),
        _ => None,
    }
}

/// The closing delimiter of an opening one.
fn close_for(kind: TokenKind) -> (r: Option<TokenKind>)
    ensures
        r == closer_of(kind),
        r matches Some(k) ==> k != TokenKind::Eof,
        r is Some <==> (kind == TokenKind::Less || kind == TokenKind::LParen || kind == TokenKind::LBrace
            || kind == TokenKind::LBracket),
{
    match kind {
        TokenKind::Less => Some(TokenKind::Greater),
        TokenKind::LParen => Some(TokenKind::RParen),
        TokenKind::LBrace => Some(TokenKind::RBrace),
        TokenKind::LBracket => Some(TokenKind::RBracket),
        _ => None,
    }
}

fn is_close(kind: TokenKind) -> (r: bool)
    ensures
        r == (kind == TokenKind::Greater || kind == TokenKind::RParen || kind == TokenKind::RBrace
            || kind == TokenKind::RBracket),
{
    match kind {
        TokenKind::Greater | TokenKind::RParen | TokenKind::RBrace | TokenKind::RBracket => true,
        _ => false,
    }
}

pub open spec fn spec_type_start(kind: TokenKind) -> bool {
    match kind {
        TokenKind::IntType | TokenKind::FloatType | TokenKind::IndexType
        | TokenKind::ExclamationIdentifier | TokenKind::Tuple | TokenKind::Tensor
        | TokenKind::Vector | TokenKind::MemRef | TokenKind::AffineMap
        | TokenKind::AffineSet => true,
        _ => false,
    }
}

pub open spec fn spec_identifier(kind: TokenKind) -> bool {
    match kind {
        TokenKind::BareIdentifier | TokenKind::IntType | TokenKind::FloatType
        | TokenKind::IndexType | TokenKind::Tuple | TokenKind::Tensor | TokenKind::Vector
        | TokenKind::MemRef | TokenKind::AffineMap | TokenKind::AffineSet | TokenKind::Mod
        | TokenKind::FloorDiv | TokenKind::CeilDiv | TokenKind::Strided | TokenKind::Loc
        | TokenKind::Unknown | TokenKind::CallSite | TokenKind::Fused => true,
        _ => false,
    }
}

pub open spec fn spec_numeric_start(kind: TokenKind) -> bool {
    match kind {
        TokenKind::Plus | TokenKind::Minus | TokenKind::Integer | TokenKind::WideInteger
        | TokenKind::Float => true,
        _ => false,
    }
}

/// The kind of the `n`-th token from token `i` on that is not trivia.
pub open spec fn nth_nontrivia_from(toks: Seq<Token>, i: int, n: int) -> Option<TokenKind>
    decreases toks.len() - i,
{
    if 0 <= i < toks.len() {
        if !spec_is_trivia(toks[i].spec_kind()) {
            if n <= 0 {
                Some(toks[i].spec_kind())
            } else {
                nth_nontrivia_from(toks, i + 1, n - 1)
            }
        } else {
            nth_nontrivia_from(toks, i + 1, n)
        }
    } else {
        None
    }
}

/// The bytes of token `i` in `src`, when `src` holds them.
pub open spec fn spelling(toks: Seq<Token>, src: Seq<u8>, i: int) -> Option<Seq<u8>> {
    if toks[i].spec_end() <= src.len() {
        Some(src.subrange(toks[i].spec_start(), toks[i].spec_end()))
    } else {
        None
    }
}

/// The first index from `i` on whose token is not trivia, or `i` when it is off
/// the tape.
pub open spec fn skip_trivia_at(toks: Seq<Token>, i: int) -> int
    decreases toks.len() - i,
{
    if 0 <= i < toks.len() && spec_is_trivia(toks[i].spec_kind()) {
        skip_trivia_at(toks, i + 1)
    } else {
        i
    }
}

pub proof fn lemma_skip_trivia_at(toks: Seq<Token>, i: int)
    ensures
        skip_trivia_at(toks, i) >= i,
        0 <= i <= toks.len() ==> skip_trivia_at(toks, i) <= toks.len(),
    decreases toks.len() - i,
{
    if 0 <= i < toks.len() && spec_is_trivia(toks[i].spec_kind()) {
        lemma_skip_trivia_at(toks, i + 1);
    }
}

/// The kind of the last token before token `i` that is not trivia.
pub open spec fn last_nontrivia_before(toks: Seq<Token>, i: int) -> Option<TokenKind>
    decreases i,
{
    if 0 < i <= toks.len() {
        if !spec_is_trivia(toks[i - 1].spec_kind()) {
            Some(toks[i - 1].spec_kind())
        } else {
            last_nontrivia_before(toks, i - 1)
        }
    } else {
        None
    }
}

/// Whether token `i` is on the tape and of `kind`.
pub open spec fn kind_is(toks: Seq<Token>, i: int, kind: TokenKind) -> bool {
    0 <= i < toks.len() && toks[i].spec_kind() == kind
}

/// The text of the token at `pos` when it is valid UTF-8, else the empty text.
pub open spec fn token_text(toks: Seq<Token>, src: Seq<u8>, pos: int) -> Seq<char> {
    match spelling(toks, src, pos) {
        Some(b) => if valid_utf8(b) {
            decode_utf8(b)
        } else {
            seq![]
        },
        None => seq![],
    }
}

/// The operation a registry describes under `name`, `module` standing for
/// `builtin.module` where the registry allows it.
pub open spec fn described_operation(reg: DialectRegistry, name: Seq<char>) -> Option<OperationDescriptor> {
    match find_operation(reg.spec_operations(), name, 0) {
        Some(i) => Some(reg.spec_operations()[i]),
        None => if name == "module"@ && reg.spec_module_alias() {
            match find_operation(reg.spec_operations(), "builtin.module"@, 0) {
                Some(i) => Some(reg.spec_operations()[i]),
                None => None,
            }
        } else {
            None
        },
    }
}

/// Whether a registry gives `name` a syntax: an operation with an assembly
/// program, or a named shape.
pub open spec fn has_custom_syntax(reg: DialectRegistry, name: Seq<char>) -> bool {
    ||| described_operation(reg, name) matches Some(d) && d.assembly is Some
    ||| reg.spec_shapes() matches Some(shapes) && find_shape(shapes, name, 0) is Some
}

/// What the first top-level item of a tape reads as, when it is an operation,
/// given the node built for it (node 1, after the file's root): a quoted
/// mnemonic gives an error-free generic `Operation` node; a bare mnemonic that
/// the registry gives no syntax gives an `UnparsedCustomOperation` node in
/// error, and the first diagnostic is an unknown custom operation at that
/// mnemonic; a bare mnemonic of an operation with an assembly program is read
/// by it, as [`assembly_error_facts`] says of its error. Each node starts at the
/// mnemonic.
pub open spec fn first_item_read(
    len: nat,
    kind: SyntaxKind,
    error: bool,
    first: int,
    diags: Seq<ParseDiagnostic>,
    toks: Seq<Token>,
    src: Seq<u8>,
    reg: DialectRegistry,
) -> bool {
    let p0 = skip_trivia_at(toks, 0);
    &&& kind_is(toks, p0, TokenKind::String) ==> len > 1 && kind == SyntaxKind::Operation && !error
        && first == p0
    &&& kind_is(toks, p0, TokenKind::BareIdentifier) && !has_custom_syntax(reg, token_text(toks, src, p0))
        ==> len > 1 && kind == SyntaxKind::UnparsedCustomOperation && error && first == p0
        && diags.len() > 0 && diags[0].spec_kind() == ParseDiagnosticKind::UnknownCustomOperation
        && diags[0].spec_range() == toks[p0].spec_range()
    &&& ({
        let d = described_operation(reg, token_text(toks, src, p0));
        kind_is(toks, p0, TokenKind::BareIdentifier) && d is Some && d->0.assembly is Some ==> len > 1
            && first == p0 && assembly_error_facts(d->0.assembly->0, toks, src, p0, error)
    })
}

/// `after` holds the diagnostics of `before` first.
pub open spec fn diagnostics_kept(before: Seq<ParseDiagnostic>, after: Seq<ParseDiagnostic>) -> bool {
    before.len() <= after.len() && forall|i: int| 0 <= i < before.len() ==> #[trigger] after[i] == before[i]
}

/// When a registered assembly program, reading an operation whose mnemonic is at
/// `pos`, marks the operation in error (`error`), as far as the tape before any
/// nested type, attribute or region grammar decides it:
/// - a function or call with no `@symbol` where one belongs is in error;
/// - a module with no `attributes` keyword is in error exactly when no `{` opens
///   its body;
/// - binary operands with no first `%operand`, or no comma after it, are in error;
/// - a branch is in error with no `^label`, and not with a label and no `(`;
/// - a return-like list, where no `{` or `:` follows its operands, is in error
///   exactly when it has operands (whose types are then missing).
pub open spec fn assembly_error_facts(
    program: AssemblyProgram,
    toks: Seq<Token>,
    src: Seq<u8>,
    pos: int,
    error: bool,
) -> bool {
    let p1 = skip_trivia_at(toks, pos + 1);
    match program {
        AssemblyProgram::Function => !kind_is(toks, function_symbol_at(toks, src, pos), TokenKind::AtIdentifier)
            ==> error,
        AssemblyProgram::Call => !kind_is(toks, p1, TokenKind::AtIdentifier) ==> error,
        AssemblyProgram::Module => {
            let p2 = if kind_is(toks, p1, TokenKind::AtIdentifier) {
                skip_trivia_at(toks, p1 + 1)
            } else {
                p1
            };
            !(kind_is(toks, p2, TokenKind::BareIdentifier) && spelling(toks, src, p2) == Some(
                seq![0x61u8, 0x74, 0x74, 0x72, 0x69, 0x62, 0x75, 0x74, 0x65, 0x73],
            )) ==> error == !kind_is(toks, p2, TokenKind::LBrace)
        },
        AssemblyProgram::BinaryOperands => !kind_is(toks, p1, TokenKind::PercentIdentifier) || !kind_is(
            toks,
            skip_trivia_at(toks, p1 + 1),
            TokenKind::Comma,
        ) ==> error,
        AssemblyProgram::TypedSuccessor => {
            &&& !kind_is(toks, p1, TokenKind::CaretIdentifier) ==> error
            &&& kind_is(toks, p1, TokenKind::CaretIdentifier) && !kind_is(
                toks,
                skip_trivia_at(toks, p1 + 1),
                TokenKind::LParen,
            ) ==> !error
        },
        AssemblyProgram::OptionalTypedOperands => {
            let operands = return_operands(toks, p1, 0);
            !kind_is(toks, operands.0, TokenKind::LBrace) && !kind_is(toks, operands.0, TokenKind::Colon)
                ==> error == (operands.1 > 0)
        },
        _ => true,
    }
}

/// The spelling of a visibility keyword: `public`, `private` or `nested`.
pub open spec fn visibility_word(w: Option<Seq<u8>>) -> bool {
    ||| w == Some(seq![0x70u8, 0x75, 0x62, 0x6c, 0x69, 0x63])
    ||| w == Some(seq![0x70u8, 0x72, 0x69, 0x76, 0x61, 0x74, 0x65])
    ||| w == Some(seq![0x6eu8, 0x65, 0x73, 0x74, 0x65, 0x64])
}

/// Where the `@symbol` of a function stands when its name is at `pos`: past the
/// name and an optional visibility keyword.
pub open spec fn function_symbol_at(toks: Seq<Token>, src: Seq<u8>, pos: int) -> int {
    let p1 = skip_trivia_at(toks, pos + 1);
    if kind_is(toks, p1, TokenKind::BareIdentifier) && visibility_word(spelling(toks, src, p1)) {
        skip_trivia_at(toks, p1 + 1)
    } else {
        p1
    }
}

/// The operands of a list like `%a, %b` from `p`: the first token that is not
/// trivia past the last of them, and their count added to `count`.
pub open spec fn return_operands(toks: Seq<Token>, p: int, count: nat) -> (int, nat)
    decreases toks.len() - p,
{
    if kind_is(toks, p, TokenKind::PercentIdentifier) {
        let q = skip_trivia_at(toks, p + 1);
        if kind_is(toks, q, TokenKind::Comma) {
            proof {
                lemma_skip_trivia_at(toks, p + 1);
                lemma_skip_trivia_at(toks, q + 1);
            }
            return_operands(toks, skip_trivia_at(toks, q + 1), count + 1)
        } else {
            (q, count + 1)
        }
    } else {
        (p, count)
    }
}

/// Whether the brace at token `pos` opens a region: the next token that is not
/// trivia is a block label or a result, a quoted name followed by `(`, or a bare
/// name with a `.` that is not assigned to.
pub open spec fn region_shaped_at(toks: Seq<Token>, src: Seq<u8>, pos: int) -> bool {
    let index = skip_trivia_at(toks, pos + 1);
    if 0 <= index < toks.len() {
        let kind = toks[index].spec_kind();
        if kind == TokenKind::CaretIdentifier || kind == TokenKind::PercentIdentifier {
            true
        } else if kind == TokenKind::String {
            kind_is(toks, skip_trivia_at(toks, index + 1), TokenKind::LParen)
        } else if kind == TokenKind::BareIdentifier {
            !kind_is(toks, skip_trivia_at(toks, index + 1), TokenKind::Equal) && match spelling(
                toks,
                src,
                index,
            ) {
                Some(text) => text.contains(0x2e),
                None => false,
            }
        } else {
            false
        }
    } else {
        false
    }
}

/// Where a result list `%a, %b:2` that starts at token `index` ends, past the
/// trivia after it; `None` when it is malformed.
pub open spec fn results_end(toks: Seq<Token>, index: int) -> Option<int>
    decreases toks.len() - index,
{
    if kind_is(toks, index, TokenKind::PercentIdentifier) {
        let j = skip_trivia_at(toks, index + 1);
        let after = if kind_is(toks, j, TokenKind::Colon) {
            let c = skip_trivia_at(toks, j + 1);
            if kind_is(toks, c, TokenKind::Integer) {
                Some(skip_trivia_at(toks, c + 1))
            } else {
                None
            }
        } else {
            Some(j)
        };
        match after {
            None => None,
            Some(e) => if kind_is(toks, e, TokenKind::Comma) {
                proof {
                    lemma_skip_trivia_at(toks, index + 1);
                    lemma_skip_trivia_at(toks, j + 1);
                    lemma_skip_trivia_at(toks, skip_trivia_at(toks, j + 1) + 1);
                    lemma_skip_trivia_at(toks, e + 1);
                }
                results_end(toks, skip_trivia_at(toks, e + 1))
            } else {
                Some(e)
            },
        }
    } else {
        None
    }
}

/// Whether results are assigned at token `pos` from a quoted operation name, or,
/// when `allow_bare`, from a bare one.
pub open spec fn assignment_starts(toks: Seq<Token>, pos: int, allow_bare: bool) -> bool {
    match results_end(toks, pos) {
        None => false,
        Some(e) => {
            let q = skip_trivia_at(toks, e);
            let s = skip_trivia_at(toks, q + 1);
            kind_is(toks, q, TokenKind::Equal) && (kind_is(toks, s, TokenKind::String) || (
            allow_bare && kind_is(toks, s, TokenKind::BareIdentifier)))
        },
    }
}

/// The bytes of the keyword `attributes`.
pub open spec fn attributes_word() -> Seq<u8> {
    seq![0x61u8, 0x74u8, 0x74u8, 0x72u8, 0x69u8, 0x62u8, 0x75u8, 0x74u8, 0x65u8, 0x73u8]
}

/// Whether a token of `kind` after a quoted name and `(` shows a location.
pub open spec fn location_follows(kind: Option<TokenKind>) -> bool {
    kind == Some(TokenKind::HashIdentifier) || kind == Some(TokenKind::ExclamationIdentifier) || kind
        == Some(TokenKind::String) || kind == Some(TokenKind::Loc) || kind == Some(TokenKind::Unknown)
        || kind == Some(TokenKind::CallSite) || kind == Some(TokenKind::Fused)
}

/// `after` is `before` with one more diagnostic, of `kind` at token `t`.
pub open spec fn reported(before: Seq<ParseDiagnostic>, after: Seq<ParseDiagnostic>, t: Token, kind: ParseDiagnosticKind) -> bool {
    &&& after.len() == before.len() + 1
    &&& after.subrange(0, before.len() as int) == before
    &&& diagnostics_kept(before, after)
    &&& after.last().spec_range() == t.spec_range()
    &&& after.last().spec_kind() == kind
}

/// Where a reading of the tape stands when it builds no nodes: its position, and
/// the diagnostics it added, each as the index of the token it covers and its
/// kind.
pub struct Reading {
    pub pos: int,
    pub added: Seq<(int, ParseDiagnosticKind)>,
}

/// A reading at `pos` that has added nothing.
pub open spec fn reading_at(pos: int) -> Reading {
    Reading { pos, added: seq![] }
}

/// `after` is `before` with the diagnostics `added`, in order.
pub open spec fn added_as(
    before: Seq<ParseDiagnostic>,
    after: Seq<ParseDiagnostic>,
    toks: Seq<Token>,
    added: Seq<(int, ParseDiagnosticKind)>,
) -> bool {
    &&& after.len() == before.len() + added.len()
    &&& after.subrange(0, before.len() as int) == before
    &&& diagnostics_kept(before, after)
    &&& forall|k: int|
        0 <= k < added.len() ==> (#[trigger] after[before.len() + k]).spec_range() == toks[added[k].0].spec_range()
            && after[before.len() + k].spec_kind() == added[k].1
}

/// One diagnostic more keeps `added_as` with it pushed.
pub proof fn lemma_added_report(
    before: Seq<ParseDiagnostic>,
    mid: Seq<ParseDiagnostic>,
    after: Seq<ParseDiagnostic>,
    toks: Seq<Token>,
    added: Seq<(int, ParseDiagnosticKind)>,
    at: int,
    kind: ParseDiagnosticKind,
)
    requires
        added_as(before, mid, toks, added),
        reported(mid, after, toks[at], kind),
    ensures
        added_as(before, after, toks, added.push((at, kind))),
{
    let a2 = added.push((at, kind));
    assert(after.subrange(0, before.len() as int) =~= before) by {
        assert(after.subrange(0, mid.len() as int) == mid);
        assert forall|k: int| 0 <= k < before.len() implies after[k] == before[k] by {
            assert(after.subrange(0, mid.len() as int)[k] == after[k]);
            assert(mid.subrange(0, before.len() as int)[k] == mid[k]);
        }
    }
    assert forall|k: int| 0 <= k < a2.len() implies (#[trigger] after[before.len() + k]).spec_range()
        == toks[a2[k].0].spec_range() && after[before.len() + k].spec_kind() == a2[k].1 by {
        if k < added.len() {
            assert(after.subrange(0, mid.len() as int)[before.len() + k] == after[before.len() + k]);
            assert(mid[before.len() + k].spec_range() == toks[added[k].0].spec_range());
        } else {
            assert(after.last() == after[before.len() + k]);
        }
    }
}

/// The reading past trivia.
pub open spec fn read_trivia(toks: Seq<Token>, c: Reading) -> Reading {
    Reading { pos: skip_trivia_at(toks, c.pos), ..c }
}

/// The reading past one token.
pub open spec fn read_bump(c: Reading) -> Reading {
    Reading { pos: c.pos + 1, ..c }
}

/// The reading with a diagnostic of `kind` at its token.
pub open spec fn read_report(c: Reading, kind: ParseDiagnosticKind) -> Reading {
    Reading { added: c.added.push((c.pos, kind)), ..c }
}

/// A token of `kind` consumed, or reported missing; whether it was there.
pub open spec fn read_expect(toks: Seq<Token>, c: Reading, kind: TokenKind) -> (Reading, bool) {
    if kind_is(toks, c.pos, kind) {
        (read_bump(c), true)
    } else {
        (read_report(c, ParseDiagnosticKind::Syntax), false)
    }
}

/// The names of an affine identifier list from `c` on: each name, then trivia,
/// then a comma and trivia to go on.
pub open spec fn read_identifiers(toks: Seq<Token>, c: Reading) -> Reading
    decreases toks.len() - c.pos,
{
    if 0 <= c.pos < toks.len() && spec_identifier(toks[c.pos].spec_kind()) {
        let d = read_trivia(toks, read_bump(c));
        proof {
            lemma_skip_trivia_at(toks, c.pos + 1);
        }
        if kind_is(toks, d.pos, TokenKind::Comma) {
            proof {
                lemma_skip_trivia_at(toks, d.pos + 1);
            }
            read_identifiers(toks, read_trivia(toks, read_bump(d)))
        } else {
            d
        }
    } else {
        c
    }
}

/// `(d0, d1)` or `[s0]` read from `c`: the reading after it, and whether both
/// brackets were there.
pub open spec fn read_identifier_list(toks: Seq<Token>, c: Reading) -> (Reading, bool) {
    let paren = kind_is(toks, c.pos, TokenKind::LParen);
    let (d, opened) = read_expect(
        toks,
        c,
        if paren {
            TokenKind::LParen
        } else {
            TokenKind::LBracket
        },
    );
    let e = read_identifiers(toks, read_trivia(toks, d));
    let (f, closed) = read_expect(
        toks,
        e,
        if paren {
            TokenKind::RParen
        } else {
            TokenKind::RBracket
        },
    );
    (f, opened && closed)
}

/// `nodes` with an operand and the use inside it, both over tokens
/// `[first, last)`, in error when `error`.
pub open spec fn with_operand(nodes: Seq<NodeInfo>, first: int, last: int, error: bool) -> Seq<NodeInfo> {
    let end = (nodes.len() + 2) as usize;
    nodes.push(
        NodeInfo { kind: SyntaxKind::Operand, end, first: first as usize, last: last as usize, error },
    ).push(NodeInfo { kind: SyntaxKind::OperandUse, end, first: first as usize, last: last as usize, error })
}

/// Where a reading of overflow flags stands: the reading, the flags seen, how
/// many were read, and whether all was well so far.
pub struct FlagScan {
    pub c: Reading,
    pub nsw: bool,
    pub nuw: bool,
    pub none: bool,
    pub count: int,
    pub good: bool,
}

pub open spec fn nsw_word() -> Seq<u8> {
    seq![0x6eu8, 0x73u8, 0x77u8]
}

pub open spec fn nuw_word() -> Seq<u8> {
    seq![0x6eu8, 0x75u8, 0x77u8]
}

pub open spec fn none_word() -> Seq<u8> {
    seq![0x6eu8, 0x6fu8, 0x6eu8, 0x65u8]
}

/// The flags of `overflow<...>` read from `st` on: each a bare word, reported
/// when it repeats a flag, when `none` is not alone, or past the second flag;
/// then trivia, and a comma and trivia to go on. A missing word is reported.
pub open spec fn read_flags(toks: Seq<Token>, src: Seq<u8>, st: FlagScan) -> FlagScan
    decreases toks.len() - st.c.pos,
{
    if !kind_is(toks, st.c.pos, TokenKind::BareIdentifier) {
        FlagScan { good: false, c: read_report(st.c, ParseDiagnosticKind::Syntax), ..st }
    } else {
        let text = spelling(toks, src, st.c.pos);
        let is_nsw = text == Some(nsw_word());
        let is_nuw = text == Some(nuw_word());
        let is_none = text == Some(none_word());
        let duplicate = if is_nsw {
            st.nsw
        } else if is_nuw {
            st.nuw
        } else if is_none {
            st.none
        } else {
            true
        };
        let nsw = st.nsw || is_nsw;
        let nuw = if is_nsw {
            st.nuw
        } else {
            st.nuw || is_nuw
        };
        let none = if is_nsw || is_nuw {
            st.none
        } else {
            st.none || is_none
        };
        let bad = duplicate || (is_none && st.count != 0) || (!is_none && none);
        let c1 = if bad {
            read_report(st.c, ParseDiagnosticKind::Syntax)
        } else {
            st.c
        };
        let c2 = read_trivia(toks, read_bump(c1));
        let count = st.count + 1;
        let c3 = if count > 2 {
            read_report(c2, ParseDiagnosticKind::Syntax)
        } else {
            c2
        };
        let next = FlagScan { c: c3, nsw, nuw, none, count, good: st.good && !bad && count <= 2 };
        proof {
            lemma_skip_trivia_at(toks, st.c.pos + 1);
            lemma_skip_trivia_at(toks, c3.pos + 1);
        }
        if kind_is(toks, c3.pos, TokenKind::Comma) {
            read_flags(toks, src, FlagScan { c: read_trivia(toks, read_bump(c3)), ..next })
        } else {
            next
        }
    }
}

/// `overflow<nsw, nuw>` read from `c`: the reading after it, and whether it was
/// well formed: a word, `<`, one or two distinct flags or `none` alone, `>`.
pub open spec fn read_overflow_flags(toks: Seq<Token>, src: Seq<u8>, c: Reading) -> (Reading, bool) {
    let (c1, word) = read_expect(toks, c, TokenKind::BareIdentifier);
    let (c2, less) = read_expect(toks, read_trivia(toks, c1), TokenKind::Less);
    let st = read_flags(
        toks,
        src,
        FlagScan { c: read_trivia(toks, c2), nsw: false, nuw: false, none: false, count: 0, good: word && less },
    );
    let (c3, closed) = read_expect(toks, st.c, TokenKind::Greater);
    (c3, st.good && st.count != 0 && closed)
}

/// Where a reading of a `<...>` payload stands: the reading, the closing
/// delimiters still owed, innermost last, and whether all was well so far.
pub struct PayloadScan {
    pub c: Reading,
    pub stack: Seq<TokenKind>,
    pub good: bool,
}

/// Whether a token of `kind` is a number literal.
pub open spec fn numeric_literal(kind: TokenKind) -> bool {
    kind == TokenKind::Integer || kind == TokenKind::WideInteger || kind == TokenKind::Float
}

/// The rest of a payload read from `st`, for a payload starting at byte
/// `payload_start`: the owed delimiter closes, a stray closing one is reported
/// (and a `}` ends the payload), an opening one is owed its close unless the
/// nesting is too deep, and an overlong number or payload is reported; the end
/// of the file, or a `}` with only the payload's `>` owed, ends it in error.
pub open spec fn read_payload(toks: Seq<Token>, limits: ParserLimits, payload_start: int, st: PayloadScan) -> (Reading, bool)
    decreases toks.len() - st.c.pos,
{
    if st.stack.len() == 0 || !(0 <= st.c.pos < toks.len()) {
        (st.c, st.good)
    } else {
        let current = toks[st.c.pos].spec_kind();
        if current == TokenKind::Eof || (st.stack.len() == 1 && current == TokenKind::RBrace) {
            (read_report(st.c, ParseDiagnosticKind::Syntax), false)
        } else if current == st.stack.last() {
            read_payload(toks, limits, payload_start, PayloadScan { c: read_bump(st.c), stack: st.stack.drop_last(), ..st })
        } else if current == TokenKind::Greater || current == TokenKind::RParen || current == TokenKind::RBrace
            || current == TokenKind::RBracket {
            let c1 = read_report(st.c, ParseDiagnosticKind::Syntax);
            if current == TokenKind::RBrace {
                (c1, false)
            } else {
                read_payload(toks, limits, payload_start, PayloadScan { c: read_bump(c1), good: false, ..st })
            }
        } else {
            let (c1, stack, g1) = match closer_of(current) {
                Some(close) => if st.stack.len() >= limits.max_delimiter_depth {
                    (read_report(st.c, ParseDiagnosticKind::Syntax), st.stack, false)
                } else {
                    (st.c, st.stack.push(close), st.good)
                },
                None => (st.c, st.stack, st.good),
            };
            let start = toks[st.c.pos].spec_start();
            let end = toks[st.c.pos].spec_end();
            let (c2, g2) = if numeric_literal(current) && end - start > limits.max_numeric_literal_bytes {
                (read_report(c1, ParseDiagnosticKind::Syntax), false)
            } else {
                (c1, g1)
            };
            let spent = if end >= payload_start {
                end - payload_start
            } else {
                0
            };
            let (c3, g3) = if spent > limits.max_payload_bytes {
                (read_report(c2, ParseDiagnosticKind::Syntax), false)
            } else {
                (c2, g2)
            };
            read_payload(toks, limits, payload_start, PayloadScan { c: read_bump(c3), stack, good: g3 })
        }
    }
}

/// A reading of the tape that also builds nodes: the reading, and the nodes so far.
pub struct NodeReading {
    pub c: Reading,
    pub nodes: Seq<NodeInfo>,
}

/// The operands of a list read from `st` on: each `%name`, with `#n` after it,
/// an operand holding its use; then trivia, and a comma and trivia to go on.
pub open spec fn read_operands(toks: Seq<Token>, st: NodeReading) -> NodeReading
    decreases toks.len() - st.c.pos,
{
    if kind_is(toks, st.c.pos, TokenKind::PercentIdentifier) {
        let after = if kind_is(toks, st.c.pos + 1, TokenKind::HashIdentifier) {
            st.c.pos + 2
        } else {
            st.c.pos + 1
        };
        let nodes = with_operand(st.nodes, st.c.pos, after, false);
        let c1 = read_trivia(toks, Reading { pos: after, ..st.c });
        proof {
            lemma_skip_trivia_at(toks, after);
            lemma_skip_trivia_at(toks, c1.pos + 1);
        }
        if kind_is(toks, c1.pos, TokenKind::Comma) {
            read_operands(toks, NodeReading { c: read_trivia(toks, read_bump(c1)), nodes })
        } else {
            NodeReading { c: c1, nodes }
        }
    } else {
        st
    }
}

/// `(%a, %b#1)` read from `st`: `(` or its report, trivia, the operands, and
/// `)` or its report.
pub open spec fn read_operand_list(toks: Seq<Token>, st: NodeReading) -> NodeReading {
    let (c1, _) = read_expect(toks, st.c, TokenKind::LParen);
    let inner = read_operands(toks, NodeReading { c: read_trivia(toks, c1), nodes: st.nodes });
    let (c2, _) = read_expect(toks, inner.c, TokenKind::RParen);
    NodeReading { c: c2, nodes: inner.nodes }
}

/// A reading that builds nodes and keeps some open: the reading, the nodes, and
/// the open ones, innermost last.
pub struct Build {
    pub c: Reading,
    pub nodes: Seq<NodeInfo>,
    pub open: Seq<int>,
}

/// The kind of the token a build stands at, when it is on the tape.
pub open spec fn build_at(toks: Seq<Token>, b: Build, kind: TokenKind) -> bool {
    kind_is(toks, b.c.pos, kind)
}

pub open spec fn build_trivia(toks: Seq<Token>, b: Build) -> Build {
    Build { c: read_trivia(toks, b.c), ..b }
}

pub open spec fn build_bump(b: Build) -> Build {
    Build { c: read_bump(b.c), ..b }
}

pub open spec fn build_report(b: Build) -> Build {
    Build { c: read_report(b.c, ParseDiagnosticKind::Syntax), ..b }
}

/// A node opened at the current token.
pub open spec fn build_start(b: Build) -> Build {
    Build {
        nodes: b.nodes.push(
            NodeInfo {
                kind: SyntaxKind::Error,
                end: 0,
                first: b.c.pos as usize,
                last: b.c.pos as usize,
                error: false,
            },
        ),
        open: b.open.push(b.nodes.len() as int),
        ..b
    }
}

/// The innermost open node closed as a node of `kind`, in error when `error`.
pub open spec fn build_complete(b: Build, kind: SyntaxKind, error: bool) -> Build {
    let m = b.open.last();
    Build {
        nodes: b.nodes.update(
            m,
            NodeInfo {
                kind,
                end: b.nodes.len() as usize,
                first: b.nodes[m].first,
                last: b.c.pos as usize,
                error,
            },
        ),
        open: b.open.drop_last(),
        ..b
    }
}

/// `nodes` with a node of `kind` opened in front of node `c`, at token `pos`:
/// it takes `c`'s place and the nodes from `c` on move one later, their
/// subtrees one longer.
pub open spec fn preceded(nodes: Seq<NodeInfo>, c: int, kind: SyntaxKind, pos: int) -> Seq<NodeInfo> {
    Seq::new(
        (nodes.len() + 1) as nat,
        |i: int|
            if i < c {
                nodes[i]
            } else if i == c {
                NodeInfo { kind, end: 0, first: nodes[c].first, last: pos as usize, error: false }
            } else {
                NodeInfo { end: (nodes[i - 1].end + 1) as usize, ..nodes[i - 1] }
            },
    )
}

/// Whether node `c` is a finished child of the innermost open node.
pub open spec fn build_child(b: Build, c: int) -> bool {
    &&& b.open.len() > 0
    &&& b.open.last() < c < b.nodes.len()
    &&& b.nodes[c].end != 0
    &&& forall|i: int| b.open.last() < i < c ==> #[trigger] b.nodes[i].end <= c
}

/// The innermost pending operator applied to the two innermost operands: the
/// left one, when it can be, wrapped with what follows it in a new node; the
/// operands left, the operators left, and whether it was applied.
pub open spec fn reduce_one(b: Build, operands: Seq<usize>, operators: Seq<u8>) -> (Build, Seq<usize>, Seq<u8>, bool) {
    let ops = if operators.len() > 0 {
        operators.drop_last()
    } else {
        operators
    };
    if operands.len() == 0 {
        (b, operands, ops, false)
    } else if operands.len() == 1 {
        (b, operands, ops, false)
    } else {
        let left = operands[operands.len() - 2];
        let rest = operands.drop_last().drop_last();
        if build_child(b, left as int) {
            let wrapped = Build { nodes: preceded(b.nodes, left as int, SyntaxKind::AffineExpression, b.c.pos), open: b.open.push(left as int), ..b };
            (build_complete(wrapped, SyntaxKind::AffineExpression, false), rest.push(left), ops, true)
        } else {
            (b, rest.push(left), ops, false)
        }
    }
}

/// Pending operators above `floor` applied, while they bind at least as tightly
/// as `precedence` when one is given; whether every one was applied.
pub open spec fn reduce_ops(
    b: Build,
    operands: Seq<usize>,
    operators: Seq<u8>,
    floor: int,
    precedence: Option<u8>,
    good: bool,
) -> (Build, Seq<usize>, Seq<u8>, bool)
    decreases operators.len(),
{
    if operators.len() <= floor || operators.len() == 0 {
        (b, operands, operators, good)
    } else if precedence matches Some(p) && operators.last() < p {
        (b, operands, operators, good)
    } else {
        let (b2, o2, p2, r) = reduce_one(b, operands, operators);
        reduce_ops(b2, o2, p2, floor, precedence, good && r)
    }
}

/// How tightly an affine operator binds: `+` and `-` least, then `*`, `mod`,
/// `floordiv` and `ceildiv`.
pub open spec fn precedence_of(kind: TokenKind) -> Option<u8> {
    if kind == TokenKind::Plus || kind == TokenKind::Minus {
        Some(1u8)
    } else if kind == TokenKind::Star || kind == TokenKind::Mod || kind == TokenKind::FloorDiv || kind
        == TokenKind::CeilDiv {
        Some(2u8)
    } else {
        None
    }
}

/// `s` cut to its first `n` items when it is longer.
pub open spec fn truncated<T>(s: Seq<T>, n: int) -> Seq<T> {
    if n <= s.len() {
        s.subrange(0, n)
    } else {
        s
    }
}

/// Where an affine expression being read stands: the build, the pending
/// operands (their nodes) and operators (their precedences), the open
/// parenthesized groups (the operators and operands before each, its node and
/// the unary minus in front of it), whether an operand is expected, and whether
/// something was wrong.
pub struct AffineScan {
    pub b: Build,
    pub operands: Seq<usize>,
    pub operators: Seq<u8>,
    pub frames: Seq<(usize, usize, usize, Option<usize>)>,
    pub expect: bool,
    pub bad: bool,
}

/// Whether an affine atom, an integer or a name, is at the build's token.
pub open spec fn affine_atom_at(toks: Seq<Token>, b: Build) -> bool {
    build_at(toks, b, TokenKind::Integer) || (0 <= b.c.pos < toks.len() && spec_identifier(toks[b.c.pos].spec_kind()))
}

/// A group closed at `b` with the pending operators of `frame` applied: its
/// node, and its unary minus, closed in error when `error`; the build, the
/// node that stands for the group, and the operands and operators left.
pub open spec fn close_group(
    b: Build,
    operands: Seq<usize>,
    operators: Seq<u8>,
    frame: (usize, usize, usize, Option<usize>),
    bump: bool,
    error_when_closed: bool,
) -> (Build, usize, Seq<usize>, Seq<u8>, bool, bool) {
    let (b1, o1, p1, g) = reduce_ops(b, operands, operators, frame.0 as int, None, true);
    let inner_good = o1.len() > 0 && o1.len() - 1 == frame.1;
    let error = if error_when_closed {
        true
    } else {
        !inner_good
    };
    let b2 = if bump {
        build_bump(b1)
    } else {
        b1
    };
    let o2 = if o1.len() > 0 {
        o1.drop_last()
    } else {
        o1
    };
    let o3 = truncated(o2, frame.1 as int);
    match frame.3 {
        Some(u) => (
            build_complete(build_complete(b2, SyntaxKind::AffineExpression, error), SyntaxKind::AffineExpression, error),
            u,
            o3,
            p1,
            g,
            o1.len() > 0,
        ),
        None => (build_complete(b2, SyntaxKind::AffineExpression, error), frame.2, o3, p1, g, o1.len() > 0),
    }
}

/// One step of reading an affine expression from `st`, after trivia: an operand
/// (an atom, a unary minus on an atom or a group, or a group opened) when one is
/// expected, else an operator, applying those that bind at least as tightly, or
/// a `)` that closes a group; and whether reading goes on.
pub open spec fn affine_step(toks: Seq<Token>, st: AffineScan) -> (AffineScan, bool) {
    let b0 = build_trivia(toks, st.b);
    if st.expect {
        if build_at(toks, b0, TokenKind::Minus) {
            let unary = b0.nodes.len() as usize;
            let b1 = build_trivia(toks, build_bump(build_start(b0)));
            if build_at(toks, b1, TokenKind::LParen) {
                if st.frames.len() >= 64 {
                    (
                        AffineScan {
                            b: build_complete(build_report(b1), SyntaxKind::AffineExpression, true),
                            operands: st.operands.push(unary),
                            bad: true,
                            ..st
                        },
                        false,
                    )
                } else {
                    let marker = b1.nodes.len() as usize;
                    (
                        AffineScan {
                            b: build_bump(build_start(b1)),
                            frames: st.frames.push(
                                (st.operators.len() as usize, st.operands.len() as usize, marker, Some(unary)),
                            ),
                            ..st
                        },
                        true,
                    )
                }
            } else {
                let good = affine_atom_at(toks, b1);
                let b2 = if good {
                    build_bump(b1)
                } else {
                    build_report(b1)
                };
                (
                    AffineScan {
                        b: build_complete(b2, SyntaxKind::AffineExpression, !good),
                        operands: st.operands.push(unary),
                        expect: false,
                        bad: st.bad || !good,
                        ..st
                    },
                    true,
                )
            }
        } else if build_at(toks, b0, TokenKind::LParen) {
            if st.frames.len() >= 64 {
                (AffineScan { b: build_report(b0), bad: true, ..st }, false)
            } else {
                let marker = b0.nodes.len() as usize;
                (
                    AffineScan {
                        b: build_bump(build_start(b0)),
                        frames: st.frames.push((st.operators.len() as usize, st.operands.len() as usize, marker, None)),
                        ..st
                    },
                    true,
                )
            }
        } else if affine_atom_at(toks, b0) {
            let marker = b0.nodes.len() as usize;
            (
                AffineScan {
                    b: build_complete(build_bump(build_start(b0)), SyntaxKind::AffineExpression, false),
                    operands: st.operands.push(marker),
                    expect: false,
                    ..st
                },
                true,
            )
        } else {
            (AffineScan { b: build_report(b0), bad: true, ..st }, false)
        }
    } else if 0 <= b0.c.pos < toks.len() && precedence_of(toks[b0.c.pos].spec_kind()) is Some {
        let p = precedence_of(toks[b0.c.pos].spec_kind())->0;
        let floor = if st.frames.len() > 0 {
            st.frames.last().0 as int
        } else {
            0
        };
        let (b1, o1, p1, g) = reduce_ops(b0, st.operands, st.operators, floor, Some(p), true);
        (
            AffineScan {
                b: build_bump(b1),
                operands: o1,
                operators: p1.push(p),
                expect: true,
                bad: st.bad || !g,
                ..st
            },
            true,
        )
    } else if build_at(toks, b0, TokenKind::RParen) && st.frames.len() > 0 {
        let (b1, grouped, o1, p1, g, some) = close_group(b0, st.operands, st.operators, st.frames.last(), true, false);
        (
            AffineScan {
                b: b1,
                operands: o1.push(grouped),
                operators: p1,
                frames: st.frames.drop_last(),
                expect: false,
                bad: st.bad || !g || !some,
            },
            true,
        )
    } else {
        (AffineScan { b: b0, ..st }, false)
    }
}

/// Affine reading from `st` until a step stops.
pub open spec fn affine_loop(toks: Seq<Token>, st: AffineScan) -> AffineScan
    decreases toks.len() - st.b.c.pos,
{
    let (next, go) = affine_step(toks, st);
    if go && st.b.c.pos < next.b.c.pos <= toks.len() {
        affine_loop(toks, next)
    } else {
        next
    }
}

/// The groups still open closed in error, innermost first.
pub open spec fn close_frames(st: AffineScan) -> AffineScan
    decreases st.frames.len(),
{
    if st.frames.len() == 0 {
        st
    } else {
        let (b1, grouped, o1, p1, g, some) = close_group(st.b, st.operands, st.operators, st.frames.last(), false, true);
        close_frames(
            AffineScan {
                b: b1,
                operands: o1.push(grouped),
                operators: p1,
                frames: st.frames.drop_last(),
                bad: st.bad || !g || !some,
                ..st
            },
        )
    }
}

/// An affine expression read from `b`: the build after it, and the node that
/// stands for the whole expression, if any. A dangling operator, an unclosed
/// group or a leftover operand is reported, and a wrong expression is wrapped in
/// an error node where its node is a finished child of the innermost open node.
pub open spec fn read_affine_expression(toks: Seq<Token>, b: Build) -> (Build, Option<usize>) {
    let st = affine_loop(
        toks,
        AffineScan { b, operands: seq![], operators: seq![], frames: seq![], expect: true, bad: false },
    );
    let st1 = if st.expect && st.operators.len() > 0 {
        AffineScan { b: build_report(st.b), bad: true, ..st }
    } else {
        st
    };
    let fs = close_frames(st1);
    let (b2, o2, p2, g) = reduce_ops(fs.b, fs.operands, fs.operators, 0, None, true);
    let result = if o2.len() > 0 {
        Some(o2.last())
    } else {
        None
    };
    let o3 = if o2.len() > 0 {
        o2.drop_last()
    } else {
        o2
    };
    let b3 = if o3.len() > 0 {
        build_report(b2)
    } else {
        b2
    };
    let bad = fs.bad || !g || o3.len() > 0;
    match result {
        Some(r) => if bad && build_child(b3, r as int) {
            (
                build_complete(
                    Build {
                        nodes: preceded(b3.nodes, r as int, SyntaxKind::AffineExpression, b3.c.pos),
                        open: b3.open.push(r as int),
                        ..b3
                    },
                    SyntaxKind::AffineExpression,
                    true,
                ),
                result,
            )
        } else {
            (b3, result)
        },
        None => (b3, result),
    }
}

/// Every diagnostic covers the range of a token of the tape.
pub open spec fn diagnostics_at_tokens(ds: Seq<ParseDiagnostic>, toks: Seq<Token>) -> bool {
    forall|k: int|
        0 <= k < ds.len() ==> exists|i: int|
            0 <= i < toks.len() && #[trigger] ds[k].spec_range() == toks[i].spec_range()
}

/// The parser's state: a position on the token tape, the tree built so far, the
/// diagnostics, the limits, and how deeply regions and attribute containers nest.
pub(crate) struct Parser<'a> {
    tokens: &'a [Token],
    position: usize,
    builder: TreeBuilder,
    diagnostics: Vec<ParseDiagnostic>,
    limits: ParserLimits,
    nesting_depth: usize,
    source: &'a [u8],
    registry: &'a DialectRegistry,
}

impl<'a> Parser<'a> {
    /// The builder runs over the same tape, its cursor is the position, and the
    /// position is on the tape, which ends with its only `Eof`.
    pub(crate) closed spec fn wf(self) -> bool {
        &&& self.builder.wf()
        &&& self.builder.spec_tokens() == self.tokens@
        &&& self.builder.spec_cursor() == self.position
        &&& eof_terminated(self.tokens@)
        &&& self.position < self.tokens@.len()
        &&& self.tokens@.len() <= usize::MAX
        &&& diagnostics_at_tokens(self.diagnostics@, self.tokens@)
    }

    /// Where the parser stands as a build, with the diagnostics `added`.
    closed spec fn build_with(self, added: Seq<(int, ParseDiagnosticKind)>) -> Build {
        Build {
            c: Reading { pos: self.position as int, added },
            nodes: self.builder.spec_nodes(),
            open: self.builder.spec_open(),
        }
    }

    closed spec fn kind_at(self, i: int) -> TokenKind {
        self.tokens@[i].spec_kind()
    }

    closed spec fn cur(self) -> TokenKind {
        self.kind_at(self.position as int)
    }

    /// How many tokens are left, the current one included.
    closed spec fn rem(self) -> int {
        self.tokens@.len() - self.position
    }

    /// `after` continues `self`: same tape and settings, no token given back, the
    /// same open nodes, and every node built before left as it was.
    closed spec fn keeps(self, after: Self) -> bool {
        &&& diagnostics_kept(self.diagnostics@, after.diagnostics@)
        &&& after.registry == self.registry
        &&& after.tokens@ == self.tokens@
        &&& after.source@ == self.source@
        &&& after.limits == self.limits
        &&& after.nesting_depth == self.nesting_depth
        &&& self.position <= after.position
        &&& after.builder.spec_open() == self.builder.spec_open()
        &&& self.builder.spec_len() <= after.builder.spec_len()
        &&& forall|i: int|
            0 <= i < self.builder.spec_len() ==> #[trigger] after.builder.spec_nodes()[i]
                == self.builder.spec_nodes()[i]
    }

    /// `after` continues `self` inside node `m`, which `self` opened first: same tape
    /// and settings, no token given back, `m` innermost over the open nodes of
    /// `self`, and every node built before `m` left as it was.
    closed spec fn opened(self, after: Self, m: int) -> bool {
        &&& self.within(after, m)
        &&& after.builder.spec_open() == self.builder.spec_open().push(m)
    }

    /// `after` continues `self` after `self` opened node `m`: same tape and
    /// settings, no token given back, and every node built before `m` left as it
    /// was.
    closed spec fn within(self, after: Self, m: int) -> bool {
        &&& diagnostics_kept(self.diagnostics@, after.diagnostics@)
        &&& after.registry == self.registry
        &&& after.tokens@ == self.tokens@
        &&& after.source@ == self.source@
        &&& after.limits == self.limits
        &&& self.position <= after.position
        &&& m == self.builder.spec_len()
        &&& m < after.builder.spec_len()
        &&& forall|i: int|
            0 <= i < m ==> #[trigger] after.builder.spec_nodes()[i] == self.builder.spec_nodes()[i]
    }

    /// `after` continues `self` with the same open nodes, leaving the nodes before
    /// `bound` as they were.
    closed spec fn keeps_below(self, after: Self, bound: int) -> bool {
        &&& self.keeps_nodes_below(after, bound)
        &&& after.builder.spec_open() == self.builder.spec_open()
    }

    /// `after` continues `self`, leaving the nodes before `bound` as they were.
    closed spec fn keeps_nodes_below(self, after: Self, bound: int) -> bool {
        &&& diagnostics_kept(self.diagnostics@, after.diagnostics@)
        &&& after.registry == self.registry
        &&& after.tokens@ == self.tokens@
        &&& after.source@ == self.source@
        &&& after.limits == self.limits
        &&& after.nesting_depth == self.nesting_depth
        &&& self.position <= after.position
        &&& bound <= after.builder.spec_len()
        &&& forall|i: int|
            0 <= i < bound ==> #[trigger] after.builder.spec_nodes()[i] == self.builder.spec_nodes()[i]
    }

    /// `after` has gone one token further than `self` and added one node, after
    /// every node of `self`: a leaf of `kind` over exactly the token `self` stood on.
    closed spec fn leaf_added(self, after: Self, kind: SyntaxKind) -> bool {
        let n = self.builder.spec_len() as int;
        &&& after.position == self.position + 1
        &&& after.builder.spec_len() == n + 1
        &&& after.builder.spec_kind(n) == kind
        &&& after.builder.spec_first(n) == self.position
        &&& after.builder.spec_last(n) == self.position + 1
        &&& after.builder.spec_end(n) == n + 1
        &&& after.diagnostics@ == self.diagnostics@
    }

    /// `after` is `self` with more diagnostics at most.
    closed spec fn same_tree(self, after: Self) -> bool {
        &&& after.registry == self.registry
        &&& after.tokens@ == self.tokens@
        &&& after.source@ == self.source@
        &&& after.limits == self.limits
        &&& after.nesting_depth == self.nesting_depth
        &&& after.position == self.position
        &&& after.builder == self.builder
    }

    fn current(&self) -> (r: TokenKind)
        requires
            self.wf(),
        ensures
            r == self.cur(),
    {
        self.tokens[self.position].kind()
    }

    fn at(&self, kind: TokenKind) -> (r: bool)
        requires
            self.wf(),
        ensures
            r == (self.cur() == kind),
    {
        self.current() == kind
    }

    fn at_identifier(&self) -> (r: bool)
        requires
            self.wf(),
        ensures
            r == spec_identifier(self.cur()),
    {
        match self.current() {
            TokenKind::BareIdentifier | TokenKind::IntType | TokenKind::FloatType
            | TokenKind::IndexType | TokenKind::Tuple | TokenKind::Tensor | TokenKind::Vector
            | TokenKind::MemRef | TokenKind::AffineMap | TokenKind::AffineSet | TokenKind::Mod
            | TokenKind::FloorDiv | TokenKind::CeilDiv | TokenKind::Strided | TokenKind::Loc
            | TokenKind::Unknown | TokenKind::CallSite | TokenKind::Fused => true,
            _ => false,
        }
    }

    fn at_type_start(&self) -> (r: bool)
        requires
            self.wf(),
        ensures
            r == spec_type_start(self.cur()),
    {
        match self.current() {
            TokenKind::IntType | TokenKind::FloatType | TokenKind::IndexType
            | TokenKind::ExclamationIdentifier | TokenKind::Tuple | TokenKind::Tensor
            | TokenKind::Vector | TokenKind::MemRef | TokenKind::AffineMap
            | TokenKind::AffineSet => true,
            _ => false,
        }
    }

    fn at_type_boundary(&self) -> (r: bool)
        requires
            self.wf(),
        ensures
            r == (self.cur() == TokenKind::Comma || self.cur() == TokenKind::RParen || self.cur()
                == TokenKind::RBrace || self.cur() == TokenKind::Greater || self.cur()
                == TokenKind::Eof),
    {
        match self.current() {
            TokenKind::Comma | TokenKind::RParen | TokenKind::RBrace | TokenKind::Greater
            | TokenKind::Eof => true,
            _ => false,
        }
    }

    fn at_numeric_start(&self) -> (r: bool)
        requires
            self.wf(),
        ensures
            r == spec_numeric_start(self.cur()),
    {
        match self.current() {
            TokenKind::Plus | TokenKind::Minus | TokenKind::Integer | TokenKind::WideInteger
            | TokenKind::Float => true,
            _ => false,
        }
    }

    /// The kind of the `n`-th token from the current one that is not trivia.
    fn nth_nontrivia(&self, n: usize) -> (r: Option<TokenKind>)
        requires
            self.wf(),
        ensures
            r == nth_nontrivia_from(self.tokens@, self.position as int, n as int),
    {
        let mut i = self.position;
        let mut seen: usize = 0;
        while i < self.tokens.len()
            invariant
                self.position <= i <= self.tokens@.len(),
                seen <= n,
                nth_nontrivia_from(self.tokens@, self.position as int, n as int) == nth_nontrivia_from(
                    self.tokens@,
                    i as int,
                    n - seen,
                ),
            decreases self.tokens@.len() - i,
        {
            let kind = self.tokens[i].kind();
            if !is_trivia(kind) {
                if seen == n {
                    return Some(kind);
                }
                seen = seen + 1;
            }
            i = i + 1;
        }
        None
    }

    /// The bytes of token `i`, where the source holds them.
    fn token_bytes(&self, i: usize) -> (r: Option<&[u8]>)
        requires
            i < self.tokens@.len(),
        ensures
            match spelling(self.tokens@, self.source@, i as int) {
                Some(b) => r matches Some(t) && t@ == b,
                None => r is None,
            },
    {
        let range = self.tokens[i].range();
        let start = range.start() as usize;
        let end = range.end() as usize;
        if end <= self.source.len() {
            Some(slice_subrange(self.source, start, end))
        } else {
            None
        }
    }

    /// Whether the current token is spelled `text` in the source.
    fn current_is(&self, text: &[u8]) -> (r: bool)
        requires
            self.wf(),
        ensures
            r == (spelling(self.tokens@, self.source@, self.position as int) == Some(text@)),
    {
        match self.token_bytes(self.position) {
            Some(bytes) => bytes_equal(bytes, text),
            None => false,
        }
    }

    fn diagnostic_kind(&mut self, kind: ParseDiagnosticKind)
        requires
            old(self).wf(),
        ensures
            final(self).wf(),
            old(self).same_tree(*final(self)),
            reported(old(self).diagnostics@, final(self).diagnostics@, old(self).tokens@[old(self).position as int], kind),
    {
        let range = self.tokens[self.position].range();
        let ghost before = self.diagnostics@;
        self.diagnostics.push(ParseDiagnostic::new(range, kind));
        proof {
            assert(self.diagnostics@.subrange(0, before.len() as int) =~= before);
            assert forall|k: int| 0 <= k < self.diagnostics@.len() implies exists|i: int|
                0 <= i < self.tokens@.len() && #[trigger] self.diagnostics@[k].spec_range()
                    == self.tokens@[i].spec_range() by {
                if k < before.len() {
                    assert(self.diagnostics@[k] == before[k]);
                    assert(diagnostics_at_tokens(before, self.tokens@));
                    let i = choose|i: int| 0 <= i < self.tokens@.len() && before[k].spec_range() == self.tokens@[i].spec_range();
                    assert(self.diagnostics@[k].spec_range() == self.tokens@[i].spec_range());
                } else {
                    assert(self.diagnostics@[k].spec_range() == self.tokens@[self.position as int].spec_range());
                }
            }
        }
    }

    fn diagnostic(&mut self)
        requires
            old(self).wf(),
        ensures
            final(self).wf(),
            old(self).same_tree(*final(self)),
            reported(
                old(self).diagnostics@,
                final(self).diagnostics@,
                old(self).tokens@[old(self).position as int],
                ParseDiagnosticKind::Syntax,
            ),
    {
        self.diagnostic_kind(ParseDiagnosticKind::Syntax);
    }

    /// Consumes the current token into the open nodes.
    fn bump(&mut self)
        requires
            old(self).wf(),
            old(self).cur() != TokenKind::Eof,
        ensures
            final(self).wf(),
            old(self).keeps(*final(self)),
            final(self).position == old(self).position + 1,
            final(self).builder.spec_nodes() == old(self).builder.spec_nodes(),
            final(self).diagnostics@ == old(self).diagnostics@,
    {
        self.builder.token();
        self.position = self.position + 1;
    }

    /// Opens a node at the current token.
    fn start(&mut self) -> (m: usize)
        requires
            old(self).wf(),
        ensures
            final(self).registry == old(self).registry,
            final(self).wf(),
            m == old(self).builder.spec_len(),
            final(self).builder.spec_open() == old(self).builder.spec_open().push(m as int),
            final(self).builder.spec_len() == m + 1,
            final(self).builder.spec_first(m as int) == old(self).position,
            forall|i: int|
                0 <= i < m ==> #[trigger] final(self).builder.spec_nodes()[i]
                    == old(self).builder.spec_nodes()[i],
            final(self).tokens@ == old(self).tokens@,
            final(self).source@ == old(self).source@,
            final(self).limits == old(self).limits,
            final(self).nesting_depth == old(self).nesting_depth,
            final(self).position == old(self).position,
            final(self).diagnostics@ == old(self).diagnostics@,
            final(self).builder.spec_nodes() == old(self).builder.spec_nodes().push(
                final(self).builder.spec_nodes()[m as int],
            ),
            final(self).builder.spec_kind(m as int) == SyntaxKind::Error,
            final(self).builder.spec_end(m as int) == 0,
            final(self).builder.spec_last(m as int) == old(self).position,
            !final(self).builder.spec_error(m as int),
            final(self).builder.spec_nodes() == old(self).builder.spec_nodes().push(
                NodeInfo {
                    kind: SyntaxKind::Error,
                    end: 0,
                    first: old(self).position,
                    last: old(self).position,
                    error: false,
                },
            ),
    {
        let id = self.builder.start_node(SyntaxKind::Error);
        proof {
            let n = self.builder.spec_nodes()[id.spec_index()];
            assert(n == NodeInfo {
                kind: SyntaxKind::Error,
                end: 0,
                first: old(self).position,
                last: old(self).position,
                error: false,
            });
        }
        id.index()
    }

    /// Closes node `m`, the innermost open one, as a node of `kind`.
    fn complete(&mut self, m: usize, kind: SyntaxKind, error: bool, Ghost(outer): Ghost<Seq<int>>)
        requires
            old(self).wf(),
            old(self).builder.spec_open() == outer.push(m as int),
        ensures
            final(self).registry == old(self).registry,
            final(self).wf(),
            final(self).builder.spec_open() == outer,
            final(self).builder.spec_len() == old(self).builder.spec_len(),
            forall|i: int|
                0 <= i < final(self).builder.spec_len() && i != m
                    ==> #[trigger] final(self).builder.spec_nodes()[i] == old(self).builder.spec_nodes()[i],
            final(self).builder.spec_end(m as int) != 0,
            final(self).tokens@ == old(self).tokens@,
            final(self).source@ == old(self).source@,
            final(self).limits == old(self).limits,
            final(self).nesting_depth == old(self).nesting_depth,
            final(self).position == old(self).position,
            final(self).diagnostics@ == old(self).diagnostics@,
            final(self).builder.spec_nodes() == old(self).builder.spec_nodes().update(
                m as int,
                final(self).builder.spec_nodes()[m as int],
            ),
            final(self).builder.spec_kind(m as int) == kind,
            final(self).builder.spec_first(m as int) == old(self).builder.spec_first(m as int),
            final(self).builder.spec_end(m as int) == old(self).builder.spec_len(),
            final(self).builder.spec_last(m as int) == old(self).position,
            final(self).builder.spec_error(m as int) == error,
            final(self).builder.spec_open() == old(self).builder.spec_open().drop_last(),
            m == old(self).builder.spec_open().last(),
            final(self).builder.spec_nodes() == old(self).builder.spec_nodes().update(
                m as int,
                NodeInfo {
                    kind,
                    end: old(self).builder.spec_len() as usize,
                    first: old(self).builder.spec_nodes()[m as int].first,
                    last: old(self).position,
                    error,
                },
            ),
    {
        proof {
            self.builder.lemma_open_nodes();
        }
        let ghost before = self.builder.spec_nodes();
        let _ = self.builder.finish_node_as(kind, error);
        proof {
            assert(self.builder.spec_nodes()[m as int] == NodeInfo {
                kind,
                end: before.len() as usize,
                first: before[m as int].first,
                last: self.position,
                error,
            });
            assert(outer.push(m as int).drop_last() =~= outer);
            assert forall|i: int| 0 <= i < self.builder.spec_len() && i != m implies #[trigger] self.builder.spec_nodes()[i]
                == before[i] by {
                assert(self.builder.spec_nodes() == before.update(m as int, self.builder.spec_nodes()[m as int]));
            }
        }
    }

    /// Skips whitespace and comments.
    fn trivia(&mut self)
        requires
            old(self).wf(),
        ensures
            final(self).wf(),
            old(self).keeps(*final(self)),
            final(self).builder.spec_nodes() == old(self).builder.spec_nodes(),
            !spec_is_trivia(final(self).cur()),
            spec_is_trivia(old(self).cur()) ==> final(self).position > old(self).position,
            final(self).position == skip_trivia_at(old(self).tokens@, old(self).position as int),
            final(self).diagnostics@ == old(self).diagnostics@,
    {
        while self.at(TokenKind::Whitespace) || self.at(TokenKind::LineComment)
            invariant
                self.wf(),
                old(self).keeps(*self),
                self.builder.spec_nodes() == old(self).builder.spec_nodes(),
                self.diagnostics@ == old(self).diagnostics@,
                skip_trivia_at(old(self).tokens@, old(self).position as int) == skip_trivia_at(
                    self.tokens@,
                    self.position as int,
                ),
                spec_is_trivia(old(self).cur()) && self.position == old(self).position ==> spec_is_trivia(
                    self.cur(),
                ),
            decreases self.tokens@.len() - self.position,
        {
            self.bump();
        }
    }

    /// Consumes a token of `kind`, or reports that it is missing.
    fn expect(&mut self, kind: TokenKind) -> (r: bool)
        requires
            old(self).wf(),
            kind != TokenKind::Eof,
        ensures
            final(self).wf(),
            old(self).keeps(*final(self)),
            final(self).builder.spec_nodes() == old(self).builder.spec_nodes(),
            r == (old(self).cur() == kind),
            r ==> final(self).position == old(self).position + 1,
            !r ==> final(self).position == old(self).position,
            r ==> final(self).diagnostics@ == old(self).diagnostics@,
            !r ==> reported(
                old(self).diagnostics@,
                final(self).diagnostics@,
                old(self).tokens@[old(self).position as int],
                ParseDiagnosticKind::Syntax,
            ),
    {
        if self.at(kind) {
            self.bump();
            true
        } else {
            self.diagnostic();
            false
        }
    }

    /// Wraps the current token, if it is not `Eof`, in an error node.
    fn error_token(&mut self)
        requires
            old(self).wf(),
        ensures
            final(self).wf(),
            old(self).keeps(*final(self)),
            old(self).cur() != TokenKind::Eof ==> final(self).position == old(self).position + 1,
            old(self).cur() == TokenKind::Eof ==> final(self).position == old(self).position,
    {
        let ghost outer = self.builder.spec_open();
        let error = self.start();
        self.diagnostic();
        if !self.at(TokenKind::Eof) {
            self.bump();
        }
        self.complete(error, SyntaxKind::Error, true, Ghost(outer));
    }

    /// Turns a stalled step into an error node so that every step consumes.
    fn ensure_progress(&mut self, before: usize)
        requires
            old(self).wf(),
            before <= old(self).position,
        ensures
            final(self).wf(),
            old(self).keeps(*final(self)),
            final(self).position > before || (final(self).position == before
                && final(self).cur() == TokenKind::Eof),
    {
        if self.position == before && !self.at(TokenKind::Eof) {
            self.diagnostic_kind(ParseDiagnosticKind::ProgressLimit);
            self.error_token();
        }
    }

    fn leaf(&mut self, kind: SyntaxKind) -> (r: bool)
        requires
            old(self).wf(),
            old(self).cur() != TokenKind::Eof,
        ensures
            final(self).wf(),
            old(self).keeps(*final(self)),
            final(self).position > old(self).position,
            old(self).leaf_added(*final(self), kind),
            r,
    {
        let ghost outer = self.builder.spec_open();
        let marker = self.start();
        self.bump();
        self.complete(marker, kind, false, Ghost(outer));
        true
    }
}

impl<'a> Parser<'a> {
    /// Whether the `n`-th token from here that is not trivia is of `kind`.
    fn nth_is(&self, n: usize, kind: TokenKind) -> (r: bool)
        requires
            self.wf(),
        ensures
            r == (nth_nontrivia_from(self.tokens@, self.position as int, n as int) == Some(kind)),
    {
        match self.nth_nontrivia(n) {
            Some(k) => k == kind,
            None => false,
        }
    }

    /// The kind of token `i`, when it is on the tape.
    fn kind_of(&self, i: usize) -> (r: Option<TokenKind>)
        requires
            self.wf(),
        ensures
            r matches Some(k) ==> i < self.tokens@.len() && k == self.kind_at(i as int),
            r is None ==> i >= self.tokens@.len(),
    {
        if i < self.tokens.len() {
            Some(self.tokens[i].kind())
        } else {
            None
        }
    }

    /// The first index from `i` on whose token is not trivia, or the tape's length.
    fn skip_trivia_from(&self, i: usize) -> (r: usize)
        requires
            self.wf(),
        ensures
            r >= i,
            i <= self.tokens@.len() ==> r <= self.tokens@.len(),
            r == skip_trivia_at(self.tokens@, i as int),
    {
        let mut index = i;
        while index < self.tokens.len() && is_trivia(self.tokens[index].kind())
            invariant
                index >= i,
                skip_trivia_at(self.tokens@, i as int) == skip_trivia_at(self.tokens@, index as int),
                self.wf(),
                i <= self.tokens@.len() ==> index <= self.tokens@.len(),
            decreases self.tokens@.len() - index,
        {
            index = index + 1;
        }
        index
    }

    /// The kind of the last token before the current one that is not trivia.
    fn previous_nontrivia(&self) -> (r: Option<TokenKind>)
        requires
            self.wf(),
        ensures
            r == last_nontrivia_before(self.tokens@, self.position as int),
    {
        let mut i = self.position;
        while i > 0
            invariant
                i <= self.position,
                last_nontrivia_before(self.tokens@, self.position as int) == last_nontrivia_before(
                    self.tokens@,
                    i as int,
                ),
                self.wf(),
            decreases i,
        {
            i = i - 1;
            let kind = self.tokens[i].kind();
            if !is_trivia(kind) {
                return Some(kind);
            }
        }
        None
    }

    /// A bare word starts a custom operation unless it is the `attributes` keyword.
    fn bare_custom_operation_start(&self) -> (r: bool)
        requires
            self.wf(),
        ensures
            r == (spelling(self.tokens@, self.source@, self.position as int) != Some(attributes_word())),
    {
        match self.token_bytes(self.position) {
            Some(bytes) => !bytes_equal(bytes, &[0x61u8, 0x74u8, 0x74u8, 0x72u8, 0x69u8, 0x62u8, 0x75u8, 0x74u8, 0x65u8, 0x73u8]),
            None => true,
        }
    }

    /// Whether the brace at the current token opens a region: one that starts with
    /// a block label, a result, a quoted operation, or a dotted operation name.
    fn region_shaped_body(&self) -> (r: bool)
        requires
            self.wf(),
        ensures
            r == region_shaped_at(self.tokens@, self.source@, self.position as int),
    {
        let mut index = self.skip_trivia_from(self.position + 1);
        match self.kind_of(index) {
            Some(TokenKind::CaretIdentifier) | Some(TokenKind::PercentIdentifier) => true,
            Some(TokenKind::String) => {
                index = self.skip_trivia_from(index + 1);
                match self.kind_of(index) {
                    Some(TokenKind::LParen) => true,
                    _ => false,
                }
            },
            Some(TokenKind::BareIdentifier) => {
                let mnemonic = index;
                index = self.skip_trivia_from(index + 1);
                let assigned = match self.kind_of(index) {
                    Some(TokenKind::Equal) => true,
                    _ => false,
                };
                !assigned && match self.token_bytes(mnemonic) {
                    Some(text) => bytes_contain(text, 0x2e),
                    None => false,
                }
            },
            _ => false,
        }
    }

    /// Whether a generic operation starts here: a quoted name and its operand
    /// list, or results assigned from a quoted name.
    fn is_generic_operation_start(&self) -> (r: bool)
        requires
            self.wf(),
        ensures
            r ==> self.cur() == TokenKind::String || self.cur() == TokenKind::PercentIdentifier,
            r == (if self.cur() == TokenKind::String {
                nth_nontrivia_from(self.tokens@, self.position as int, 1) == Some(TokenKind::LParen)
            } else {
                assignment_starts(self.tokens@, self.position as int, false)
            }),
    {
        if self.at(TokenKind::String) {
            return self.nth_is(1, TokenKind::LParen);
        }
        self.result_assignment_starts_operation(false)
    }

    fn result_custom_operation_start(&self) -> (r: bool)
        requires
            self.wf(),
        ensures
            r ==> self.cur() == TokenKind::PercentIdentifier,
    {
        self.result_assignment_starts_operation(true)
    }

    /// Whether results are assigned here (`%a, %b:2 =`) from a quoted operation
    /// name, or, when `allow_bare` holds, from a bare one.
    fn result_assignment_starts_operation(&self, allow_bare: bool) -> (r: bool)
        requires
            self.wf(),
        ensures
            r ==> self.cur() == TokenKind::PercentIdentifier,
            r == assignment_starts(self.tokens@, self.position as int, allow_bare),
    {
        if !self.at(TokenKind::PercentIdentifier) {
            return false;
        }
        let ghost toks = self.tokens@;
        let mut index = self.position;
        loop
            invariant_except_break
                results_end(toks, self.position as int) == results_end(toks, index as int),
            invariant
                self.wf(),
                toks == self.tokens@,
                index >= self.position,
                index <= self.tokens@.len(),
                self.cur() == TokenKind::PercentIdentifier,
            ensures
                self.wf(),
                toks == self.tokens@,
                index <= self.tokens@.len(),
                self.cur() == TokenKind::PercentIdentifier,
                results_end(toks, self.position as int) == Some(index as int),
            decreases self.tokens@.len() - index,
        {
            let ghost start = index as int;
            match self.kind_of(index) {
                Some(TokenKind::PercentIdentifier) => {},
                _ => {
                    return false;
                },
            }
            index = self.skip_trivia_from(index + 1);
            match self.kind_of(index) {
                Some(TokenKind::Colon) => {
                    index = self.skip_trivia_from(index + 1);
                    match self.kind_of(index) {
                        Some(TokenKind::Integer) => {},
                        _ => {
                            return false;
                        },
                    }
                    index = self.skip_trivia_from(index + 1);
                },
                _ => {},
            }
            match self.kind_of(index) {
                Some(TokenKind::Comma) => {
                    index = self.skip_trivia_from(index + 1);
                },
                _ => {
                    break;
                },
            }
        }
        index = self.skip_trivia_from(index);
        match self.kind_of(index) {
            Some(TokenKind::Equal) => {},
            _ => {
                return false;
            },
        }
        index = self.skip_trivia_from(index + 1);
        match self.kind_of(index) {
            Some(TokenKind::String) => true,
            Some(TokenKind::BareIdentifier) => allow_bare,
            _ => false,
        }
    }

    /// A whitespace token that holds a line break.
    fn breaks_line(&self, i: usize) -> (r: bool)
        requires
            self.wf(),
            i < self.tokens@.len(),
        ensures
            r == (self.tokens@[i as int].spec_kind() == TokenKind::Whitespace && match spelling(
                self.tokens@,
                self.source@,
                i as int,
            ) {
                Some(b) => b.contains(0x0a),
                None => false,
            }),
    {
        if self.tokens[i].kind() != TokenKind::Whitespace {
            return false;
        }
        match self.token_bytes(i) {
            Some(bytes) => bytes_contain(bytes, 0x0a),
            None => false,
        }
    }

    /// Whether the current token's text, read as UTF-8, holds a `.`.
    fn current_text_has_dot(&self) -> (r: bool)
        requires
            self.wf(),
        ensures
            r == match spelling(self.tokens@, self.source@, self.position as int) {
                Some(b) => valid_utf8(b) && b.contains(0x2e),
                None => false,
            },
    {
        match self.token_bytes(self.position) {
            Some(bytes) => valid_utf8_bytes(bytes) && bytes_contain(bytes, 0x2e),
            None => false,
        }
    }
}

impl<'a> Parser<'a> {
    /// `{-# ... #-}`: everything up to the closing marker.
    fn file_metadata(&mut self)
        requires
            old(self).wf(),
            old(self).cur() == TokenKind::FileMetadataBegin,
        ensures
            final(self).wf(),
            old(self).keeps(*final(self)),
            final(self).position > old(self).position,
    {
        let ghost outer = self.builder.spec_open();
        let marker = self.start();
        self.bump();
        while !self.at(TokenKind::FileMetadataEnd) && !self.at(TokenKind::Eof)
            invariant
                self.wf(),
                old(self).opened(*self, marker as int),
                self.nesting_depth == old(self).nesting_depth,
                self.position > old(self).position,
            decreases self.tokens@.len() - self.position,
        {
            self.bump();
        }
        let unterminated = self.at(TokenKind::Eof);
        if unterminated {
            self.diagnostic();
        } else {
            self.bump();
        }
        self.complete(marker, SyntaxKind::FileMetadata, unterminated, Ghost(outer));
    }

    /// `(%a, %b#1)`: the operands of a generic operation.
    fn operand_list(&mut self)
        requires
            old(self).wf(),
        ensures
            final(self).wf(),
            old(self).keeps(*final(self)),
            ({
                let st = read_operand_list(
                    old(self).tokens@,
                    NodeReading { c: reading_at(old(self).position as int), nodes: old(self).builder.spec_nodes() },
                );
                &&& final(self).position == st.c.pos
                &&& final(self).builder.spec_nodes() == st.nodes
                &&& added_as(old(self).diagnostics@, final(self).diagnostics@, old(self).tokens@, st.c.added)
            }),
    {
        let ghost toks = self.tokens@;
        let ghost d0 = self.diagnostics@;
        let ghost mut added: Seq<(int, ParseDiagnosticKind)> = seq![];
        proof {
            assert(d0.subrange(0, d0.len() as int) =~= d0);
        }
        let ghost dm = self.diagnostics@;
        let ghost at = self.position as int;
        let opened = self.expect(TokenKind::LParen);
        proof {
            if !opened {
                lemma_added_report(d0, dm, self.diagnostics@, toks, added, at, ParseDiagnosticKind::Syntax);
                added = added.push((at, ParseDiagnosticKind::Syntax));
            }
        }
        self.trivia();
        let ghost goal = read_operands(
            toks,
            NodeReading { c: Reading { pos: self.position as int, added }, nodes: self.builder.spec_nodes() },
        );
        while self.at(TokenKind::PercentIdentifier)
            invariant_except_break
                read_operands(
                    toks,
                    NodeReading { c: Reading { pos: self.position as int, added }, nodes: self.builder.spec_nodes() },
                ) == goal,
            invariant
                self.wf(),
                old(self).keeps(*self),
                toks == self.tokens@,
                d0 == old(self).diagnostics@,
                added_as(d0, self.diagnostics@, toks, added),
            ensures
                self.wf(),
                old(self).keeps(*self),
                toks == self.tokens@,
                added_as(d0, self.diagnostics@, toks, added),
                (NodeReading { c: Reading { pos: self.position as int, added }, nodes: self.builder.spec_nodes() })
                    == goal,
            decreases self.tokens@.len() - self.position,
        {
            let ghost outer = self.builder.spec_open();
            let ghost n0 = self.builder.spec_nodes();
            let ghost p0 = self.position as int;
            let operand = self.start();
            let ghost inner = self.builder.spec_open();
            let operand_use = self.start();
            self.bump();
            if self.at(TokenKind::HashIdentifier) {
                self.bump();
            }
            self.complete(operand_use, SyntaxKind::OperandUse, false, Ghost(inner));
            self.complete(operand, SyntaxKind::Operand, false, Ghost(outer));
            proof {
                assert(self.builder.spec_nodes() =~= with_operand(n0, p0, self.position as int, false));
            }
            self.trivia();
            if !self.at(TokenKind::Comma) {
                break;
            }
            self.bump();
            self.trivia();
        }
        let ghost dm = self.diagnostics@;
        let ghost at = self.position as int;
        let closed = self.expect(TokenKind::RParen);
        proof {
            if !closed {
                lemma_added_report(d0, dm, self.diagnostics@, toks, added, at, ParseDiagnosticKind::Syntax);
                added = added.push((at, ParseDiagnosticKind::Syntax));
            }
        }
    }

    /// Skips a region that nests too deeply, up to its matching brace.
    fn recover_balanced_region(&mut self)
        requires
            old(self).wf(),
        ensures
            final(self).wf(),
            old(self).keeps(*final(self)),
            old(self).cur() != TokenKind::Eof ==> final(self).position > old(self).position,
    {
        let mut depth: usize = 0;
        while !self.at(TokenKind::Eof)
            invariant
                self.wf(),
                old(self).keeps(*self),
            decreases self.tokens@.len() - self.position,
        {
            match self.current() {
                TokenKind::LBrace => {
                    if depth < usize::MAX {
                        depth = depth + 1;
                    }
                },
                TokenKind::RBrace => {
                    if depth <= 1 {
                        self.bump();
                        return;
                    }
                    depth = depth - 1;
                },
                _ => {},
            }
            self.bump();
        }
    }

    /// Enters a nested attribute container when the depth limit allows; otherwise
    /// reports the limit and skips the container up to its matching `close`.
    fn enter_attribute_container(&mut self, open: TokenKind, close: TokenKind) -> (r: bool)
        requires
            old(self).wf(),
            open != TokenKind::Eof,
            close != TokenKind::Eof,
            open != close,
        ensures
            diagnostics_kept(old(self).diagnostics@, final(self).diagnostics@),
            final(self).registry == old(self).registry,
            final(self).wf(),
            r == (old(self).nesting_depth < old(self).limits.max_delimiter_depth),
            r ==> {
                &&& final(self).nesting_depth == old(self).nesting_depth + 1
                &&& final(self).position == old(self).position
                &&& final(self).builder == old(self).builder
                &&& final(self).tokens@ == old(self).tokens@
                &&& final(self).source@ == old(self).source@
                &&& final(self).limits == old(self).limits
            },
            !r ==> old(self).keeps(*final(self)),
            !r && old(self).cur() == open ==> final(self).position > old(self).position,
    {
        if self.nesting_depth < self.limits.max_delimiter_depth {
            self.nesting_depth = self.nesting_depth + 1;
            return true;
        }
        self.diagnostic_kind(ParseDiagnosticKind::DepthLimit);
        let mut depth: usize = 0;
        loop
            invariant
                self.wf(),
                old(self).keeps(*self),
                old(self).cur() == open ==> self.position > old(self).position || self.cur() == open,
                open != TokenKind::Eof,
                close != TokenKind::Eof,
                depth <= self.position - old(self).position,
                depth > 0 ==> self.position > old(self).position,
                self.position == old(self).position ==> depth == 0,
            ensures
                self.wf(),
                old(self).keeps(*self),
                old(self).cur() == open ==> self.position > old(self).position,
            decreases self.tokens@.len() - self.position,
        {
            if self.at(TokenKind::Eof) {
                break;
            }
            let current = self.current();
            if current == open {
                depth = depth + 1;
            } else if current == close {
                self.bump();
                if depth <= 1 {
                    break;
                }
                depth = depth - 1;
                continue;
            }
            self.bump();
        }
        false
    }

    /// The rest of a `<...>` payload after its `<`: balanced delimiters up to the
    /// matching `>`, within the payload and numeric limits.
    fn scan_balanced_payload(&mut self, payload_start: u32) -> (r: bool)
        requires
            old(self).wf(),
        ensures
            final(self).wf(),
            old(self).keeps(*final(self)),
            final(self).builder.spec_nodes() == old(self).builder.spec_nodes(),
            ({
                let (c, good) = read_payload(
                    old(self).tokens@,
                    old(self).limits,
                    payload_start as int,
                    PayloadScan { c: reading_at(old(self).position as int), stack: seq![TokenKind::Greater], good: true },
                );
                &&& final(self).position == c.pos
                &&& added_as(old(self).diagnostics@, final(self).diagnostics@, old(self).tokens@, c.added)
                &&& r == good
            }),
    {
        let ghost toks = self.tokens@;
        let ghost d0 = self.diagnostics@;
        let ghost mut added: Seq<(int, ParseDiagnosticKind)> = seq![];
        proof {
            assert(d0.subrange(0, d0.len() as int) =~= d0);
        }
        let mut stack: Vec<TokenKind> = vec![TokenKind::Greater];
        let mut good = true;
        let ghost goal = read_payload(
            toks,
            self.limits,
            payload_start as int,
            PayloadScan { c: reading_at(self.position as int), stack: stack@, good },
        );
        proof {
            assert(stack@ =~= seq![TokenKind::Greater]);
        }
        while stack.len() > 0
            invariant
                self.wf(),
                old(self).keeps(*self),
                toks == self.tokens@,
                d0 == old(self).diagnostics@,
                self.builder.spec_nodes() == old(self).builder.spec_nodes(),
                added_as(d0, self.diagnostics@, toks, added),
                read_payload(
                    toks,
                    self.limits,
                    payload_start as int,
                    PayloadScan { c: Reading { pos: self.position as int, added }, stack: stack@, good },
                ) == goal,
                goal == read_payload(
                    old(self).tokens@,
                    old(self).limits,
                    payload_start as int,
                    PayloadScan { c: reading_at(old(self).position as int), stack: seq![TokenKind::Greater], good: true },
                ),
            decreases self.tokens@.len() - self.position,
        {
            let expected = stack[stack.len() - 1];
            if self.at(TokenKind::Eof) || (stack.len() == 1 && self.at(TokenKind::RBrace)) {
                let ghost dm = self.diagnostics@;
                let ghost at = self.position as int;
                self.diagnostic();
                proof {
                    lemma_added_report(d0, dm, self.diagnostics@, toks, added, at, ParseDiagnosticKind::Syntax);
                    added = added.push((at, ParseDiagnosticKind::Syntax));
                }
                return false;
            }
            let current = self.current();
            if current == expected {
                stack.pop();
                self.bump();
                continue;
            }
            if is_close(current) {
                let ghost dm = self.diagnostics@;
                let ghost at = self.position as int;
                self.diagnostic();
                proof {
                    lemma_added_report(d0, dm, self.diagnostics@, toks, added, at, ParseDiagnosticKind::Syntax);
                    added = added.push((at, ParseDiagnosticKind::Syntax));
                }
                good = false;
                if current == TokenKind::RBrace {
                    return false;
                }
                self.bump();
                continue;
            }
            match close_for(current) {
                Some(close) => {
                    if stack.len() >= self.limits.max_delimiter_depth {
                        let ghost dm = self.diagnostics@;
                        let ghost at = self.position as int;
                        self.diagnostic();
                        proof {
                            lemma_added_report(d0, dm, self.diagnostics@, toks, added, at, ParseDiagnosticKind::Syntax);
                            added = added.push((at, ParseDiagnosticKind::Syntax));
                        }
                        good = false;
                    } else {
                        stack.push(close);
                    }
                },
                None => {},
            }
            let range = self.tokens[self.position].range();
            let numeric = match current {
                TokenKind::Integer | TokenKind::WideInteger | TokenKind::Float => true,
                _ => false,
            };
            if numeric && range.len() as usize > self.limits.max_numeric_literal_bytes {
                let ghost dm = self.diagnostics@;
                let ghost at = self.position as int;
                self.diagnostic();
                proof {
                    lemma_added_report(d0, dm, self.diagnostics@, toks, added, at, ParseDiagnosticKind::Syntax);
                    added = added.push((at, ParseDiagnosticKind::Syntax));
                }
                good = false;
            }
            let end = range.end();
            let spent: u32 = if end >= payload_start {
                end - payload_start
            } else {
                0
            };
            if spent as usize > self.limits.max_payload_bytes {
                let ghost dm = self.diagnostics@;
                let ghost at = self.position as int;
                self.diagnostic();
                proof {
                    lemma_added_report(d0, dm, self.diagnostics@, toks, added, at, ParseDiagnosticKind::Syntax);
                    added = added.push((at, ParseDiagnosticKind::Syntax));
                }
                good = false;
            }
            self.bump();
        }
        good
    }

    /// `#name<...>` or `!name<...>`: a dialect attribute or type kept as spelled.
    fn opaque(&mut self, kind: SyntaxKind) -> (r: bool)
        requires
            old(self).wf(),
            old(self).cur() != TokenKind::Eof,
        ensures
            final(self).wf(),
            old(self).keeps(*final(self)),
            final(self).position > old(self).position,
    {
        let ghost outer = self.builder.spec_open();
        let marker = self.start();
        self.bump();
        let mut bad = false;
        if self.at(TokenKind::Less) {
            let ghost inner = self.builder.spec_open();
            let body = self.start();
            self.bump();
            let payload_start = self.tokens[self.position - 1].range().end();
            bad = !self.scan_balanced_payload(payload_start);
            let body_kind = if kind == SyntaxKind::OpaqueType {
                SyntaxKind::OpaqueTypeBody
            } else {
                SyntaxKind::OpaqueAttributeBody
            };
            self.complete(body, body_kind, bad, Ghost(inner));
        }
        self.complete(marker, kind, bad, Ghost(outer));
        !bad
    }

    /// `@sym::@nested`: a symbol reference.
    fn symbol_reference(&mut self) -> (r: bool)
        requires
            old(self).wf(),
            old(self).cur() != TokenKind::Eof,
        ensures
            final(self).wf(),
            old(self).keeps(*final(self)),
            final(self).position > old(self).position,
    {
        let ghost outer = self.builder.spec_open();
        let marker = self.start();
        self.bump();
        let mut good = true;
        loop
            invariant
                self.wf(),
                old(self).opened(*self, marker as int),
                self.nesting_depth == old(self).nesting_depth,
                self.position > old(self).position,
            decreases self.tokens@.len() - self.position,
        {
            self.trivia();
            if !self.at(TokenKind::Colon) {
                break;
            }
            self.bump();
            let second = self.expect(TokenKind::Colon);
            good = good && second;
            let name = self.expect(TokenKind::AtIdentifier);
            good = good && name;
            if !good {
                break;
            }
        }
        self.complete(marker, SyntaxKind::SymbolReference, !good, Ghost(outer));
        good
    }
}

/// Whether a token after a quoted name and `(` shows a location argument rather
/// than the operand list of a following operation.
fn continues_location(kind: Option<TokenKind>) -> (r: bool)
    ensures
        r == location_follows(kind),
{
    match kind {
        Some(TokenKind::HashIdentifier) | Some(TokenKind::ExclamationIdentifier)
        | Some(TokenKind::String) | Some(TokenKind::Loc) | Some(TokenKind::Unknown)
        | Some(TokenKind::CallSite) | Some(TokenKind::Fused) => true,
        _ => false,
    }
}

impl<'a> Parser<'a> {
    /// `loc(...)`: a location, kept as spelled up to its closing parenthesis.
    fn location_attribute(&mut self) -> (r: bool)
        requires
            old(self).wf(),
            old(self).cur() != TokenKind::Eof,
        ensures
            final(self).wf(),
            old(self).keeps(*final(self)),
            final(self).position > old(self).position,
    {
        let ghost outer = self.builder.spec_open();
        let marker = self.start();
        self.bump();
        self.trivia();
        let mut good = self.expect(TokenKind::LParen);
        self.trivia();
        let ghost inner = self.builder.spec_open();
        let detail = self.start();
        let detail_kind = match self.current() {
            TokenKind::Unknown => SyntaxKind::UnknownLocation,
            TokenKind::CallSite => SyntaxKind::CallSiteLocation,
            TokenKind::Fused => SyntaxKind::FusedLocation,
            TokenKind::String => {
                if self.nth_is(1, TokenKind::Colon) {
                    SyntaxKind::FileLineColLocation
                } else {
                    SyntaxKind::NameLocation
                }
            },
            _ => SyntaxKind::NameLocation,
        };
        let mut stack: Vec<TokenKind> = vec![TokenKind::RParen];
        while !self.at(TokenKind::Eof)
            invariant
                self.wf(),
                old(self).within(*self, marker as int),
                self.builder.spec_open() == inner.push(detail as int),
                inner == outer.push(marker as int),
                detail as int == marker as int + 1,
                self.builder.spec_len() > detail,
                self.nesting_depth == old(self).nesting_depth,
                self.position > old(self).position,
            decreases self.tokens@.len() - self.position,
        {
            let kind = self.current();
            let following_operation = stack.len() == 1 && kind == TokenKind::String
                && self.nth_is(1, TokenKind::LParen) && !continues_location(self.nth_nontrivia(2));
            let top_is_paren = stack.len() > 0 && stack[stack.len() - 1] == TokenKind::RParen;
            let at_enclosing_boundary = stack.len() > 0 && (kind == TokenKind::RBrace || (kind
                == TokenKind::Comma && top_is_paren));
            if (stack.len() == 1 && kind == TokenKind::RParen) || at_enclosing_boundary
                || following_operation {
                break;
            }
            match close_for(kind) {
                Some(close) => {
                    if stack.len() >= self.limits.max_delimiter_depth {
                        self.diagnostic_kind(ParseDiagnosticKind::DepthLimit);
                        good = false;
                    } else {
                        stack.push(close);
                    }
                },
                None => {
                    if stack.len() > 0 && stack[stack.len() - 1] == kind {
                        stack.pop();
                    }
                },
            }
            self.bump();
        }
        let top_is_paren = stack.len() > 0 && stack[stack.len() - 1] == TokenKind::RParen;
        let runs_into_operation = self.at(TokenKind::String) && self.nth_is(1, TokenKind::LParen)
            && !continues_location(self.nth_nontrivia(2));
        if self.at(TokenKind::Eof) || self.at(TokenKind::RBrace) || runs_into_operation || (self.at(
            TokenKind::Comma,
        ) && top_is_paren) {
            good = false;
            self.diagnostic();
        }
        self.complete(detail, detail_kind, !good, Ghost(inner));
        let closed = self.expect(TokenKind::RParen);
        good = good && closed;
        self.complete(marker, SyntaxKind::LocationAttribute, !good, Ghost(outer));
        good
    }

    /// `strided<...>`: a layout kept as spelled, with balanced delimiters.
    fn balanced_angle_node(&mut self, kind: SyntaxKind) -> (r: bool)
        requires
            old(self).wf(),
            old(self).cur() != TokenKind::Eof,
        ensures
            final(self).wf(),
            old(self).keeps(*final(self)),
            final(self).position > old(self).position,
    {
        let ghost outer = self.builder.spec_open();
        let marker = self.start();
        self.bump();
        self.trivia();
        let mut good = self.expect(TokenKind::Less);
        let mut stack: Vec<TokenKind> = vec![TokenKind::Greater];
        while stack.len() > 0
            invariant
                self.wf(),
                old(self).opened(*self, marker as int),
                self.nesting_depth == old(self).nesting_depth,
                self.position > old(self).position,
            decreases self.tokens@.len() - self.position,
        {
            let expected = stack[stack.len() - 1];
            if self.at(TokenKind::Eof) || self.at(TokenKind::RBrace) {
                good = false;
                self.diagnostic();
                break;
            }
            let current = self.current();
            if current == expected {
                stack.pop();
            } else {
                match close_for(current) {
                    Some(close) => {
                        if stack.len() >= MAX_TYPE_DEPTH {
                            good = false;
                            self.diagnostic();
                            break;
                        }
                        stack.push(close);
                    },
                    None => {},
                }
            }
            self.bump();
        }
        self.complete(marker, kind, !good, Ghost(outer));
        good
    }

    /// `(d0, d1)` or `[s0]`: the dimension or symbol names of an affine value.
    fn affine_identifier_list(&mut self) -> (r: bool)
        requires
            old(self).wf(),
        ensures
            final(self).wf(),
            old(self).keeps(*final(self)),
            final(self).builder.spec_nodes() == old(self).builder.spec_nodes(),
            ({
                let (c, good) = read_identifier_list(old(self).tokens@, reading_at(old(self).position as int));
                &&& final(self).position == c.pos
                &&& added_as(old(self).diagnostics@, final(self).diagnostics@, old(self).tokens@, c.added)
                &&& r == good
            }),
    {
        let ghost toks = self.tokens@;
        let ghost d0 = self.diagnostics@;
        let ghost goal = read_identifier_list(toks, reading_at(self.position as int));
        let paren = self.at(TokenKind::LParen);
        let close = if paren {
            TokenKind::RParen
        } else {
            TokenKind::RBracket
        };
        let ghost mid = self.diagnostics@;
        let ghost c0 = reading_at(self.position as int);
        let mut good = self.expect(
            if paren {
                TokenKind::LParen
            } else {
                TokenKind::LBracket
            },
        );
        let ghost mut added: Seq<(int, ParseDiagnosticKind)> = seq![];
        proof {
            assert(d0.subrange(0, d0.len() as int) =~= d0);
            if !good {
                lemma_added_report(d0, mid, self.diagnostics@, toks, added, c0.pos, ParseDiagnosticKind::Syntax);
                added = added.push((c0.pos, ParseDiagnosticKind::Syntax));
            }
            assert(Reading { pos: self.position as int, added } == read_expect(
                toks,
                c0,
                if paren {
                    TokenKind::LParen
                } else {
                    TokenKind::LBracket
                },
            ).0);
        }
        self.trivia();
        let ghost items_goal = read_identifiers(toks, Reading { pos: self.position as int, added });
        while self.at_identifier()
            invariant_except_break
                read_identifiers(toks, Reading { pos: self.position as int, added }) == items_goal,
            invariant
                self.wf(),
                old(self).keeps(*self),
                toks == self.tokens@,
                d0 == old(self).diagnostics@,
                self.builder.spec_nodes() == old(self).builder.spec_nodes(),
                added_as(d0, self.diagnostics@, toks, added),
            ensures
                self.wf(),
                old(self).keeps(*self),
                toks == self.tokens@,
                self.builder.spec_nodes() == old(self).builder.spec_nodes(),
                added_as(d0, self.diagnostics@, toks, added),
                (Reading { pos: self.position as int, added }) == items_goal,
            decreases self.tokens@.len() - self.position,
        {
            self.bump();
            self.trivia();
            if self.at(TokenKind::Comma) {
                self.bump();
                self.trivia();
            } else {
                break;
            }
        }
        let ghost before_close = self.diagnostics@;
        let ghost at_close = self.position as int;
        let closed = self.expect(close);
        proof {
            if !closed {
                lemma_added_report(d0, before_close, self.diagnostics@, toks, added, at_close, ParseDiagnosticKind::Syntax);
                added = added.push((at_close, ParseDiagnosticKind::Syntax));
            }
        }
        good = good && closed;
        good
    }

    /// Skips to the end of a type that cannot be parsed, as error nodes.
    fn recover_type_boundary(&mut self)
        requires
            old(self).wf(),
        ensures
            final(self).wf(),
            old(self).keeps(*final(self)),
            spec_type_start(old(self).cur()) ==> final(self).position > old(self).position,
    {
        while !self.at_type_boundary()
            invariant
                self.wf(),
                old(self).keeps(*self),
            decreases self.tokens@.len() - self.position,
        {
            self.error_token();
        }
    }
}

impl<'a> Parser<'a> {
    /// An operation: results, then a quoted name with operands, successors,
    /// properties, regions, attributes, a function type and a location; or a bare
    /// name, whose custom syntax is kept unparsed.
    #[verifier::spinoff_prover]
    #[verifier::rlimit(60)]
    fn operation(&mut self)
        requires
            old(self).wf(),
            old(self).cur() == TokenKind::String || old(self).cur() == TokenKind::PercentIdentifier
                || old(self).cur() == TokenKind::BareIdentifier,
        ensures
            final(self).wf(),
            old(self).keeps(*final(self)),
            final(self).position > old(self).position,
            final(self).builder.spec_len() > old(self).builder.spec_len(),
            final(self).builder.spec_first(old(self).builder.spec_len() as int) == old(self).position,
            final(self).builder.spec_end(old(self).builder.spec_len() as int) == final(self).builder.spec_len(),
            old(self).cur() == TokenKind::BareIdentifier && !has_custom_syntax(
                *old(self).registry,
                token_text(old(self).tokens@, old(self).source@, old(self).position as int),
            ) ==> final(self).builder.spec_kind(old(self).builder.spec_len() as int)
                == SyntaxKind::UnparsedCustomOperation && final(self).builder.spec_error(
                old(self).builder.spec_len() as int,
            ) && final(self).diagnostics@.len() > old(self).diagnostics@.len()
                && final(self).diagnostics@[old(self).diagnostics@.len() as int].spec_kind()
                == ParseDiagnosticKind::UnknownCustomOperation
                && final(self).diagnostics@[old(self).diagnostics@.len() as int].spec_range()
                == old(self).tokens@[old(self).position as int].spec_range(),
            ({
                let d = described_operation(
                    *old(self).registry,
                    token_text(old(self).tokens@, old(self).source@, old(self).position as int),
                );
                old(self).cur() == TokenKind::BareIdentifier && d is Some && d->0.assembly is Some
                    ==> assembly_error_facts(
                    d->0.assembly->0,
                    old(self).tokens@,
                    old(self).source@,
                    old(self).position as int,
                    final(self).builder.spec_error(old(self).builder.spec_len() as int),
                )
            }),
            old(self).cur() == TokenKind::String ==> final(self).builder.spec_kind(
                old(self).builder.spec_len() as int,
            ) == SyntaxKind::Operation && !final(self).builder.spec_error(
                old(self).builder.spec_len() as int,
            ),
        decreases old(self).rem(), 20int,
    {
        let registry = self.registry;
        let ghost outer = self.builder.spec_open();
        let marker = self.start();
        if self.at(TokenKind::PercentIdentifier) {
            let ghost with_op = self.builder.spec_open();
            let result_list = self.start();
            let ghost with_list = self.builder.spec_open();
            loop
                invariant_except_break
                    self.cur() == TokenKind::PercentIdentifier,
                invariant
                    self.wf(),
                    old(self).within(*self, marker as int),
                    with_op == outer.push(marker as int),
                    with_list == with_op.push(result_list as int),
                    old(self).position <= self.position,
                    self.builder.spec_open() == with_list,
                    result_list == marker + 1,
                    self.builder.spec_len() > result_list,
                    self.nesting_depth == old(self).nesting_depth,
                    outer == old(self).builder.spec_open(),
                    self.builder.spec_first(marker as int) == old(self).position,
                ensures
                    self.builder.spec_first(marker as int) == old(self).position,
                    self.wf(),
                    old(self).within(*self, marker as int),
                    self.builder.spec_open() == with_list,
                    self.builder.spec_len() > result_list,
                    self.nesting_depth == old(self).nesting_depth,
                    self.position > old(self).position,
                decreases self.tokens@.len() - self.position,
            {
                let result = self.start();
                self.bump();
                self.trivia();
                if self.at(TokenKind::Colon) {
                    let ghost with_result = self.builder.spec_open();
                    let number = self.start();
                    self.bump();
                    self.trivia();
                    let good = self.expect(TokenKind::Integer);
                    self.complete(number, SyntaxKind::ResultNumber, !good, Ghost(with_result));
                    self.trivia();
                }
                self.complete(result, SyntaxKind::ResultGroup, false, Ghost(with_list));
                if !self.at(TokenKind::Comma) {
                    break;
                }
                self.bump();
                self.trivia();
                if !self.at(TokenKind::PercentIdentifier) {
                    self.diagnostic();
                    break;
                }
            }
            self.expect(TokenKind::Equal);
            self.complete(result_list, SyntaxKind::Result, false, Ghost(with_op));
            self.trivia();
        }
        if self.at(TokenKind::BareIdentifier) {
            let name = match self.token_bytes(self.position) {
                Some(bytes) => utf8_or_empty(bytes),
                None => String::new(),
            };
            proof {
                match spelling(self.tokens@, self.source@, self.position as int) {
                    Some(b) => if valid_utf8(b) {
                        encode_utf8_decode_utf8(name@);
                    } else {
                        assert(name@ =~= seq![]);
                    },
                    None => {
                        assert(name@ =~= seq![]);
                    },
                }
                assert(name@ == token_text(self.tokens@, self.source@, self.position as int));
            }
            match registry.custom_operation(name.as_str()) {
                Some(descriptor) => {
                    match descriptor.assembly {
                        Some(program) => {
                            self.parse_assembly_program(marker, program, descriptor.syntax_kind, Ghost(outer));
                            return;
                        },
                        None => {},
                    }
                },
                None => {},
            }
            match registry.operation_shape(name.as_str()) {
                Some(shape) => {
                    self.shaped_operation(marker, shape, Ghost(outer));
                    return;
                },
                None => {},
            }
            self.unparsed_custom_operation(marker, Ghost(outer));
            return;
        }
        self.expect(TokenKind::String);
        self.trivia();
        self.operand_list();
        self.trivia();
        if self.at(TokenKind::LBracket) {
            self.successor_list();
            self.trivia();
        }
        if self.at(TokenKind::Less) {
            self.property_dict();
            self.trivia();
        }
        if self.at(TokenKind::LParen) && self.nth_is(1, TokenKind::LBrace) {
            self.region_list();
            self.trivia();
        }
        if self.at(TokenKind::LBrace) {
            self.attribute_dict();
            self.trivia();
        }
        self.expect(TokenKind::Colon);
        self.trivia();
        self.function_type();
        self.trivia();
        if self.at(TokenKind::Loc) {
            let ghost with_op = self.builder.spec_open();
            let location = self.start();
            let good = self.location_attribute();
            self.complete(location, SyntaxKind::TrailingLocation, !good, Ghost(with_op));
        }
        self.complete(marker, SyntaxKind::Operation, false, Ghost(outer));
    }

    /// A custom operation that no registered syntax describes: its tokens up to
    /// where the next operation, block or region end starts, with nested regions
    /// parsed, under node `marker`.
    fn unparsed_custom_operation(&mut self, marker: usize, Ghost(outer): Ghost<Seq<int>>)
        requires
            old(self).wf(),
            old(self).builder.spec_open() == outer.push(marker as int),
            marker < old(self).builder.spec_len(),
            old(self).cur() == TokenKind::BareIdentifier,
        ensures
            diagnostics_kept(old(self).diagnostics@, final(self).diagnostics@),
            final(self).registry == old(self).registry,
            final(self).wf(),
            final(self).builder.spec_open() == outer,
            old(self).builder.spec_len() <= final(self).builder.spec_len(),
            forall|i: int|
                0 <= i < old(self).builder.spec_len() && i != marker ==> #[trigger] final(
                self).builder.spec_nodes()[i] == old(self).builder.spec_nodes()[i],
            final(self).tokens@ == old(self).tokens@,
            final(self).source@ == old(self).source@,
            final(self).limits == old(self).limits,
            final(self).nesting_depth == old(self).nesting_depth,
            final(self).position > old(self).position,
            final(self).builder.spec_first(marker as int) == old(self).builder.spec_first(marker as int),
            final(self).builder.spec_end(marker as int) == final(self).builder.spec_len(),
            final(self).builder.spec_kind(marker as int) == SyntaxKind::UnparsedCustomOperation,
            final(self).builder.spec_error(marker as int),
            final(self).diagnostics@.len() > old(self).diagnostics@.len(),
            final(self).diagnostics@[old(self).diagnostics@.len() as int].spec_kind()
                == ParseDiagnosticKind::UnknownCustomOperation,
            final(self).diagnostics@[old(self).diagnostics@.len() as int].spec_range()
                == old(self).tokens@[old(self).position as int].spec_range(),
        decreases old(self).rem(), 19int,
    {
        self.diagnostic_kind(ParseDiagnosticKind::UnknownCustomOperation);
        let ghost reported_first = self.diagnostics@;
        let start = self.position;
        let mut stack: Vec<TokenKind> = Vec::new();
        let mut line_boundary = false;
        let mut completed_payload = false;
        loop
            invariant
                self.wf(),
                self.builder.spec_open() == outer.push(marker as int),
                old(self).builder.spec_len() <= self.builder.spec_len(),
                forall|i: int|
                    0 <= i < old(self).builder.spec_len() ==> #[trigger] self.builder.spec_nodes()[i]
                        == old(self).builder.spec_nodes()[i],
                self.tokens@ == old(self).tokens@,
                self.source@ == old(self).source@,
                self.limits == old(self).limits,
                self.nesting_depth == old(self).nesting_depth,
                diagnostics_kept(reported_first, self.diagnostics@),
                reported_first.len() == old(self).diagnostics@.len() + 1,
                diagnostics_kept(old(self).diagnostics@, reported_first),
                diagnostics_kept(reported_first, self.diagnostics@),
                self.registry == old(self).registry,
                start == old(self).position,
                start <= self.position,
                self.position == start ==> self.cur() == TokenKind::BareIdentifier,
            ensures
                self.wf(),
                self.builder.spec_open() == outer.push(marker as int),
                old(self).builder.spec_len() <= self.builder.spec_len(),
                forall|i: int|
                    0 <= i < old(self).builder.spec_len() ==> #[trigger] self.builder.spec_nodes()[i]
                        == old(self).builder.spec_nodes()[i],
                self.tokens@ == old(self).tokens@,
                self.source@ == old(self).source@,
                self.limits == old(self).limits,
                self.nesting_depth == old(self).nesting_depth,
                self.registry == old(self).registry,
                self.position > start,
            decreases self.tokens@.len() - self.position,
        {
            if self.at(TokenKind::Eof) {
                break;
            }
            let current = self.current();
            if stack.len() == 0 && current == TokenKind::LBrace && self.region_shaped_body() {
                self.region();
                completed_payload = true;
                continue;
            }
            let later = self.position > start;
            let starts_next = (current == TokenKind::BareIdentifier && self.bare_custom_operation_start()
                && (line_boundary || self.current_text_has_dot())) || (current
                == TokenKind::PercentIdentifier && self.result_custom_operation_start());
            let after_results = match self.previous_nontrivia() {
                Some(TokenKind::PercentIdentifier) => true,
                _ => false,
            };
            if stack.len() == 0 && (current == TokenKind::RBrace || current == TokenKind::CaretIdentifier
                || self.is_generic_operation_start() || (later && starts_next && (line_boundary
                || completed_payload)) || (later && current == TokenKind::BareIdentifier && after_results
                && self.nth_is(1, TokenKind::PercentIdentifier))) {
                break;
            }
            if stack.len() == 0 && completed_payload && !is_trivia(current) {
                completed_payload = false;
            }
            if stack.len() > 0 && stack[stack.len() - 1] == current {
                stack.pop();
                if stack.len() == 0 {
                    completed_payload = true;
                }
            } else {
                match close_for(current) {
                    Some(close) => {
                        if stack.len() >= self.limits.max_delimiter_depth {
                            self.diagnostic_kind(ParseDiagnosticKind::DepthLimit);
                        } else {
                            stack.push(close);
                        }
                    },
                    None => {
                        if is_close(current) && stack.len() == 0 {
                            break;
                        }
                    },
                }
            }
            let token_has_line_break = self.breaks_line(self.position);
            self.bump();
            if token_has_line_break {
                line_boundary = true;
            } else if !is_trivia(current) {
                line_boundary = false;
            }
        }
        self.complete(marker, SyntaxKind::UnparsedCustomOperation, true, Ghost(outer));
    }

    /// `[^bb1(%a : i32), ^bb2]`: the successors of an operation.
    fn successor_list(&mut self)
        requires
            old(self).wf(),
            old(self).cur() == TokenKind::LBracket,
        ensures
            final(self).wf(),
            old(self).keeps(*final(self)),
        decreases old(self).rem(), 10int,
    {
        let ghost outer = self.builder.spec_open();
        let list = self.start();
        let ghost with_list = self.builder.spec_open();
        let mut good = self.expect(TokenKind::LBracket);
        self.trivia();
        while !self.at(TokenKind::RBracket) && !self.at(TokenKind::RBrace) && !self.at(TokenKind::Eof)
            invariant
                self.wf(),
                old(self).opened(*self, list as int),
                with_list == outer.push(list as int),
                outer == old(self).builder.spec_open(),
                self.nesting_depth == old(self).nesting_depth,
                self.position > old(self).position,
            decreases self.tokens@.len() - self.position,
        {
            let successor = self.start();
            let mut item_good = self.expect(TokenKind::CaretIdentifier);
            self.trivia();
            if self.at(TokenKind::Colon) {
                self.bump();
                self.trivia();
                let arguments = self.block_argument_list(SyntaxKind::SuccessorArguments);
                item_good = item_good && arguments;
            }
            self.complete(successor, SyntaxKind::Successor, !item_good, Ghost(with_list));
            good = good && item_good;
            self.trivia();
            if !self.at(TokenKind::Comma) {
                break;
            }
            self.bump();
            self.trivia();
        }
        let closed = self.expect(TokenKind::RBracket);
        good = good && closed;
        self.complete(list, SyntaxKind::SuccessorList, !good, Ghost(outer));
    }

    /// `<{...}>`: the properties of an operation.
    fn property_dict(&mut self)
        requires
            old(self).wf(),
            old(self).cur() == TokenKind::Less,
        ensures
            final(self).wf(),
            old(self).keeps(*final(self)),
        decreases old(self).rem(), 10int,
    {
        let ghost outer = self.builder.spec_open();
        let marker = self.start();
        let mut good = self.expect(TokenKind::Less);
        self.trivia();
        let entries = self.dictionary_entries();
        good = good && entries;
        self.trivia();
        let closed = self.expect(TokenKind::Greater);
        good = good && closed;
        self.complete(marker, SyntaxKind::PropertyDict, !good, Ghost(outer));
    }

    /// `({...}, {...})`: the regions of an operation.
    fn region_list(&mut self)
        requires
            old(self).wf(),
            old(self).cur() == TokenKind::LParen,
        ensures
            final(self).wf(),
            old(self).keeps(*final(self)),
        decreases old(self).rem(), 22int,
    {
        self.expect(TokenKind::LParen);
        self.trivia();
        loop
            invariant
                self.wf(),
                old(self).keeps(*self),
                self.position > old(self).position,
            decreases self.tokens@.len() - self.position,
        {
            self.region();
            self.trivia();
            if !self.at(TokenKind::Comma) {
                break;
            }
            self.bump();
            self.trivia();
        }
        self.expect(TokenKind::RParen);
    }

    /// `{ ^bb0(...): op ... }`: a region, its blocks and their operations.
    fn region(&mut self)
        requires
            old(self).wf(),
        ensures
            final(self).wf(),
            old(self).keeps(*final(self)),
            old(self).cur() == TokenKind::LBrace ==> final(self).position > old(self).position,
        decreases old(self).rem(), 21int,
    {
        let ghost outer = self.builder.spec_open();
        let region = self.start();
        let ghost with_region = self.builder.spec_open();
        if self.nesting_depth >= self.limits.max_delimiter_depth {
            self.diagnostic_kind(ParseDiagnosticKind::DepthLimit);
            self.recover_balanced_region();
            self.complete(region, SyntaxKind::Region, true, Ghost(outer));
            return;
        }
        self.nesting_depth = self.nesting_depth + 1;
        self.expect(TokenKind::LBrace);
        self.trivia();
        let mut block: Option<usize> = None;
        if !self.at(TokenKind::CaretIdentifier) {
            block = Some(self.start());
        }
        loop
            invariant
                self.wf(),
                old(self).within(*self, region as int),
                with_region == outer.push(region as int),
                self.nesting_depth == old(self).nesting_depth + 1,
                match block {
                    Some(b) => self.builder.spec_open() == with_region.push(b as int) && region < b
                        && b < self.builder.spec_len(),
                    None => self.builder.spec_open() == with_region,
                },
                old(self).cur() == TokenKind::LBrace ==> self.position > old(self).position,
            decreases self.tokens@.len() - self.position,
        {
            let before = self.position;
            self.trivia();
            if self.at(TokenKind::RBrace) || self.at(TokenKind::Eof) {
                break;
            }
            if self.at(TokenKind::CaretIdentifier) {
                match block {
                    Some(open) => {
                        self.complete(open, SyntaxKind::Block, false, Ghost(with_region));
                    },
                    None => {},
                }
                let labeled = self.start();
                let ghost with_block = self.builder.spec_open();
                let label = self.start();
                self.bump();
                self.trivia();
                if self.at(TokenKind::LParen) {
                    self.block_argument_list(SyntaxKind::BlockArgumentList);
                    self.trivia();
                }
                self.expect(TokenKind::Colon);
                self.complete(label, SyntaxKind::BlockLabel, false, Ghost(with_block));
                block = Some(labeled);
                continue;
            }
            if self.at(TokenKind::String) || self.at(TokenKind::PercentIdentifier) || self.at(
                TokenKind::BareIdentifier,
            ) {
                self.operation();
            } else {
                self.error_token();
            }
            self.ensure_progress(before);
        }
        match block {
            Some(open) => {
                self.complete(open, SyntaxKind::Block, false, Ghost(with_region));
            },
            None => {},
        }
        self.expect(TokenKind::RBrace);
        self.nesting_depth = self.nesting_depth - 1;
        self.complete(region, SyntaxKind::Region, false, Ghost(outer));
    }

    /// `(%a: i32 {attrs} loc(...), ...)`: block or successor arguments.
    fn block_argument_list(&mut self, kind: SyntaxKind) -> (r: bool)
        requires
            old(self).wf(),
        ensures
            final(self).wf(),
            old(self).keeps(*final(self)),
        decreases old(self).rem(), 10int,
    {
        let ghost outer = self.builder.spec_open();
        let list = self.start();
        let ghost with_list = self.builder.spec_open();
        let mut good = self.expect(TokenKind::LParen);
        self.trivia();
        while self.at(TokenKind::PercentIdentifier)
            invariant
                self.wf(),
                old(self).opened(*self, list as int),
                with_list == outer.push(list as int),
                outer == old(self).builder.spec_open(),
                self.nesting_depth == old(self).nesting_depth,
            decreases self.tokens@.len() - self.position,
        {
            let argument = self.start();
            self.bump();
            self.trivia();
            let colon = self.expect(TokenKind::Colon);
            good = good && colon;
            self.trivia();
            let ty = self.type_syntax(0);
            good = good && ty;
            self.trivia();
            if self.at(TokenKind::LBrace) {
                self.attribute_dict();
                self.trivia();
            }
            if self.at(TokenKind::Loc) {
                let location = self.location_attribute();
                good = good && location;
                self.trivia();
            }
            self.complete(argument, SyntaxKind::BlockArgument, !good, Ghost(with_list));
            if !self.at(TokenKind::Comma) {
                break;
            }
            self.bump();
            self.trivia();
        }
        let closed = self.expect(TokenKind::RParen);
        good = good && closed;
        self.complete(list, kind, !good, Ghost(outer));
        good
    }

    /// `{name = value, ...}`: the attributes of an operation.
    fn attribute_dict(&mut self)
        requires
            old(self).wf(),
        ensures
            final(self).wf(),
            old(self).keeps(*final(self)),
            old(self).cur() == TokenKind::LBrace ==> final(self).position > old(self).position,
        decreases old(self).rem(), 12int,
    {
        let ghost outer = self.builder.spec_open();
        let dict = self.start();
        if !self.enter_attribute_container(TokenKind::LBrace, TokenKind::RBrace) {
            self.complete(dict, SyntaxKind::AttributeDict, true, Ghost(outer));
            return;
        }
        let bad = !self.dictionary_entries();
        self.nesting_depth = self.nesting_depth - 1;
        self.complete(dict, SyntaxKind::AttributeDict, bad, Ghost(outer));
    }

    /// `{name = value, unit_name, ...}`: dictionary entries, braces included.
    fn dictionary_entries(&mut self) -> (r: bool)
        requires
            old(self).wf(),
        ensures
            final(self).wf(),
            old(self).keeps(*final(self)),
            old(self).cur() == TokenKind::LBrace ==> final(self).position > old(self).position,
        decreases old(self).rem(), 11int,
    {
        let mut good = self.expect(TokenKind::LBrace);
        self.trivia();
        while !self.at(TokenKind::RBrace) && !self.at(TokenKind::Eof)
            invariant
                self.wf(),
                old(self).keeps(*self),
                old(self).cur() == TokenKind::LBrace ==> self.position > old(self).position,
            decreases self.tokens@.len() - self.position,
        {
            let before = self.position;
            let ghost outer = self.builder.spec_open();
            let attr = self.start();
            let mut bad = false;
            if self.at_identifier() || self.at(TokenKind::String) {
                let unit_key = self.current_is(&[0x6eu8, 0x6f, 0x5f, 0x69, 0x6e, 0x6c, 0x69, 0x6e, 0x65]);
                self.bump();
                self.trivia();
                if unit_key && (self.at(TokenKind::RBrace) || self.at(TokenKind::Comma)) {
                } else {
                    let equal = self.expect(TokenKind::Equal);
                    bad = bad || !equal;
                    self.trivia();
                    if self.at(TokenKind::RBrace) {
                        self.diagnostic();
                        bad = true;
                    } else {
                        let value = self.attribute_value();
                        bad = bad || !value;
                    }
                }
            } else {
                bad = true;
                self.error_token();
            }
            self.complete(attr, SyntaxKind::Attribute, bad, Ghost(outer));
            good = good && !bad;
            self.trivia();
            if self.at(TokenKind::Comma) {
                self.bump();
                self.trivia();
            } else if !self.at(TokenKind::RBrace) && !self.at(TokenKind::Eof) {
                good = false;
                self.diagnostic();
            }
            self.ensure_progress(before);
        }
        let closed = self.expect(TokenKind::RBrace);
        good = good && closed;
        good
    }

    /// `(i32, f32) -> i1`: a function type.
    fn function_type(&mut self)
        requires
            old(self).wf(),
        ensures
            final(self).wf(),
            old(self).keeps(*final(self)),
            old(self).cur() == TokenKind::LParen ==> final(self).position > old(self).position,
        decreases old(self).rem(), 15int,
    {
        let ghost outer = self.builder.spec_open();
        let ty = self.start();
        self.type_list(0);
        self.trivia();
        self.expect(TokenKind::Arrow);
        self.trivia();
        if self.at_type_start() {
            self.type_syntax(0);
        } else {
            self.type_list(0);
        }
        self.complete(ty, SyntaxKind::FunctionType, false, Ghost(outer));
    }

    /// `(i32, tensor<4xf32> {attrs})`: a parenthesized list of types.
    fn type_list(&mut self, depth: usize)
        requires
            old(self).wf(),
            depth <= MAX_TYPE_DEPTH,
        ensures
            final(self).wf(),
            old(self).keeps(*final(self)),
            old(self).cur() == TokenKind::LParen ==> final(self).position > old(self).position,
        decreases old(self).rem(), 14int,
    {
        self.expect(TokenKind::LParen);
        self.trivia();
        while self.at_type_start()
            invariant
                self.wf(),
                old(self).keeps(*self),
                depth <= MAX_TYPE_DEPTH,
                old(self).cur() == TokenKind::LParen ==> self.position > old(self).position,
            decreases self.tokens@.len() - self.position,
        {
            self.type_syntax(depth);
            self.trivia();
            if self.at(TokenKind::LBrace) {
                self.attribute_dict();
                self.trivia();
            }
            if !self.at(TokenKind::Comma) {
                break;
            }
            self.bump();
            self.trivia();
        }
        self.expect(TokenKind::RParen);
    }

    /// A type; `false` when none starts here or it is malformed.
    fn type_syntax(&mut self, depth: usize) -> (r: bool)
        requires
            old(self).wf(),
            depth <= MAX_TYPE_DEPTH,
        ensures
            final(self).wf(),
            old(self).keeps(*final(self)),
            spec_type_start(old(self).cur()) ==> final(self).position > old(self).position,
            depth < MAX_TYPE_DEPTH && old(self).cur() == TokenKind::IntType ==> r && old(
                self,
            ).leaf_added(*final(self), SyntaxKind::IntegerType),
            depth < MAX_TYPE_DEPTH && old(self).cur() == TokenKind::FloatType ==> r && old(
                self,
            ).leaf_added(*final(self), SyntaxKind::FloatType),
            depth < MAX_TYPE_DEPTH && old(self).cur() == TokenKind::IndexType ==> r && old(
                self,
            ).leaf_added(*final(self), SyntaxKind::IndexType),
            depth < MAX_TYPE_DEPTH && old(self).cur() == TokenKind::ExclamationIdentifier
                && nth_nontrivia_from(old(self).tokens@, old(self).position as int, 1) != Some(
                TokenKind::Less,
            ) ==> r && old(self).leaf_added(*final(self), SyntaxKind::TypeAlias),
        decreases old(self).rem(), 12int,
    {
        if depth >= MAX_TYPE_DEPTH {
            self.diagnostic();
            self.recover_type_boundary();
            return false;
        }
        let kind = match self.current() {
            TokenKind::IntType => SyntaxKind::IntegerType,
            TokenKind::FloatType => SyntaxKind::FloatType,
            TokenKind::IndexType => SyntaxKind::IndexType,
            TokenKind::ExclamationIdentifier => {
                if self.nth_is(1, TokenKind::Less) {
                    return self.opaque(SyntaxKind::OpaqueType);
                }
                SyntaxKind::TypeAlias
            },
            TokenKind::Tuple => {
                return self.tuple_type(depth + 1);
            },
            TokenKind::Tensor => {
                return self.shaped_type(SyntaxKind::TensorType, depth + 1);
            },
            TokenKind::Vector => {
                return self.shaped_type(SyntaxKind::VectorType, depth + 1);
            },
            TokenKind::MemRef => {
                return self.shaped_type(SyntaxKind::MemRefType, depth + 1);
            },
            TokenKind::AffineMap => {
                return self.affine_value(SyntaxKind::AffineMap);
            },
            TokenKind::AffineSet => {
                return self.affine_value(SyntaxKind::IntegerSet);
            },
            _ => {
                return false;
            },
        };
        self.leaf(kind)
    }

    /// `tuple<i32, f32>`.
    fn tuple_type(&mut self, depth: usize) -> (r: bool)
        requires
            old(self).wf(),
            old(self).cur() != TokenKind::Eof,
            depth <= MAX_TYPE_DEPTH,
        ensures
            final(self).wf(),
            old(self).keeps(*final(self)),
            final(self).position > old(self).position,
        decreases old(self).rem(), 11int,
    {
        let ghost outer = self.builder.spec_open();
        let marker = self.start();
        self.bump();
        self.trivia();
        let mut good = self.expect(TokenKind::Less);
        self.trivia();
        while self.at_type_start()
            invariant
                self.wf(),
                old(self).opened(*self, marker as int),
                self.nesting_depth == old(self).nesting_depth,
                self.position > old(self).position,
                depth <= MAX_TYPE_DEPTH,
            decreases self.tokens@.len() - self.position,
        {
            let element = self.type_syntax(depth);
            good = good && element;
            self.trivia();
            if self.at(TokenKind::LBrace) {
                self.attribute_dict();
                self.trivia();
            }
            if !self.at(TokenKind::Comma) {
                break;
            }
            self.bump();
            self.trivia();
        }
        let closed = self.expect(TokenKind::Greater);
        good = good && closed;
        self.complete(marker, SyntaxKind::TupleType, !good, Ghost(outer));
        good
    }

    /// `tensor<4x?xf32, #enc>`, `vector<[4]x2xf32>`, `memref<4xf32, layout, 1>`.
    fn shaped_type(&mut self, kind: SyntaxKind, depth: usize) -> (r: bool)
        requires
            old(self).wf(),
            old(self).cur() != TokenKind::Eof,
            depth <= MAX_TYPE_DEPTH,
        ensures
            final(self).wf(),
            old(self).keeps(*final(self)),
            final(self).position > old(self).position,
        decreases old(self).rem(), 11int,
    {
        let ghost outer = self.builder.spec_open();
        let marker = self.start();
        let ghost with_marker = self.builder.spec_open();
        self.bump();
        self.trivia();
        let mut good = self.expect(TokenKind::Less);
        self.trivia();
        while self.at(TokenKind::Integer) || self.at(TokenKind::Question) || self.at(TokenKind::Star)
            || (kind == SyntaxKind::VectorType && self.at(TokenKind::LBracket))
            invariant
                self.wf(),
                old(self).opened(*self, marker as int),
                with_marker == outer.push(marker as int),
                outer == old(self).builder.spec_open(),
                self.nesting_depth == old(self).nesting_depth,
                self.position > old(self).position,
            decreases self.tokens@.len() - self.position,
        {
            let dimension = self.start();
            let mut dimension_good = true;
            if self.at(TokenKind::LBracket) {
                self.bump();
                self.trivia();
                let size = self.expect(TokenKind::Integer);
                dimension_good = dimension_good && size;
                self.trivia();
                let closed = self.expect(TokenKind::RBracket);
                dimension_good = dimension_good && closed;
            } else {
                self.bump();
            }
            self.complete(dimension, SyntaxKind::ShapedDimension, !dimension_good, Ghost(with_marker));
            good = good && dimension_good;
            self.trivia();
            let x = self.expect(TokenKind::X);
            good = good && x;
            self.trivia();
        }
        if self.at_type_start() {
            let element = self.type_syntax(depth);
            good = good && element;
        } else {
            good = false;
            self.diagnostic();
            self.recover_type_boundary();
        }
        self.trivia();
        if kind == SyntaxKind::TensorType && self.at(TokenKind::Comma) {
            let encoding = self.start();
            self.bump();
            self.trivia();
            let encoding_good = self.attribute_value();
            self.complete(encoding, SyntaxKind::TensorEncoding, !encoding_good, Ghost(with_marker));
            good = good && encoding_good;
            self.trivia();
        } else if kind == SyntaxKind::MemRefType && self.at(TokenKind::Comma) {
            let suffix = self.memref_suffix();
            good = good && suffix;
        }
        let closed = self.expect(TokenKind::Greater);
        good = good && closed;
        self.complete(marker, kind, !good, Ghost(outer));
        good
    }

    /// `, layout, space` or `, space` after the element type of a memref.
    fn memref_suffix(&mut self) -> (r: bool)
        requires
            old(self).wf(),
            old(self).cur() != TokenKind::Eof,
        ensures
            final(self).wf(),
            old(self).keeps(*final(self)),
            final(self).position > old(self).position,
        decreases old(self).rem(), 11int,
    {
        self.bump();
        self.trivia();
        let mut good = true;
        if self.at(TokenKind::Integer) {
            let space = self.memref_memory_space();
            good = good && space;
            return good;
        }
        let ghost outer = self.builder.spec_open();
        let layout = self.start();
        let layout_good = match self.current() {
            TokenKind::AffineMap => self.affine_value(SyntaxKind::AffineMap),
            TokenKind::Strided => self.balanced_angle_node(SyntaxKind::StridedLayout),
            _ => self.attribute_value(),
        };
        self.complete(layout, SyntaxKind::MemRefLayout, !layout_good, Ghost(outer));
        good = good && layout_good;
        self.trivia();
        if self.at(TokenKind::Comma) {
            self.bump();
            self.trivia();
            let space = self.memref_memory_space();
            good = good && space;
        }
        good
    }

    /// The memory space of a memref: an integer or an attribute.
    fn memref_memory_space(&mut self) -> (r: bool)
        requires
            old(self).wf(),
        ensures
            final(self).wf(),
            old(self).keeps(*final(self)),
        decreases old(self).rem(), 17int,
    {
        let ghost outer = self.builder.spec_open();
        let marker = self.start();
        let good = if self.at(TokenKind::Integer) {
            self.bump();
            true
        } else {
            self.attribute_value()
        };
        self.complete(marker, SyntaxKind::MemRefMemorySpace, !good, Ghost(outer));
        self.trivia();
        good
    }

    /// An attribute value; `false` when it is malformed.
    fn attribute_value(&mut self) -> (r: bool)
        requires
            old(self).wf(),
        ensures
            final(self).wf(),
            old(self).keeps(*final(self)),
            old(self).cur() != TokenKind::Eof ==> final(self).position > old(self).position,
        decreases old(self).rem(), 16int,
    {
        match self.current() {
            TokenKind::Plus | TokenKind::Minus | TokenKind::Integer | TokenKind::WideInteger
            | TokenKind::Float => self.numeric_attribute(),
            TokenKind::String => self.string_attribute(),
            TokenKind::IntType | TokenKind::FloatType | TokenKind::IndexType
            | TokenKind::ExclamationIdentifier | TokenKind::Tuple | TokenKind::Tensor
            | TokenKind::Vector | TokenKind::MemRef | TokenKind::AffineMap | TokenKind::AffineSet => {
                let ghost outer = self.builder.spec_open();
                let marker = self.start();
                let good = self.type_syntax(0);
                self.complete(marker, SyntaxKind::TypeAttribute, !good, Ghost(outer));
                good
            },
            TokenKind::LParen => {
                let ghost outer = self.builder.spec_open();
                let marker = self.start();
                self.function_type();
                self.complete(marker, SyntaxKind::TypeAttribute, false, Ghost(outer));
                true
            },
            TokenKind::Dense => self.payload_attribute(SyntaxKind::DenseElementsAttribute),
            TokenKind::Sparse => self.payload_attribute(SyntaxKind::SparseElementsAttribute),
            TokenKind::DenseResource => self.payload_attribute(
                SyntaxKind::DenseResourceElementsAttribute,
            ),
            TokenKind::HashIdentifier => {
                if self.nth_is(1, TokenKind::Less) {
                    self.opaque(SyntaxKind::OpaqueAttribute)
                } else {
                    self.leaf(SyntaxKind::AttributeAlias)
                }
            },
            TokenKind::AtIdentifier => self.symbol_reference(),
            TokenKind::BareIdentifier => {
                if self.current_is(&[0x74u8, 0x79, 0x70, 0x65]) {
                    let ghost outer = self.builder.spec_open();
                    let marker = self.start();
                    self.bump();
                    self.trivia();
                    let mut good = self.expect(TokenKind::Less);
                    self.trivia();
                    if self.at(TokenKind::LParen) {
                        self.function_type();
                    } else {
                        let ty = self.type_syntax(0);
                        good = good && ty;
                    }
                    self.trivia();
                    let closed = self.expect(TokenKind::Greater);
                    good = good && closed;
                    self.complete(marker, SyntaxKind::TypeAttribute, !good, Ghost(outer));
                    good
                } else if self.current_is(&[0x75u8, 0x6e, 0x69, 0x74]) {
                    self.leaf(SyntaxKind::AttributeAlias)
                } else if self.current_is(&[0x74u8, 0x72, 0x75, 0x65]) || self.current_is(
                    &[0x66u8, 0x61, 0x6c, 0x73, 0x65],
                ) {
                    self.leaf(SyntaxKind::BooleanAttribute)
                } else {
                    self.error_token();
                    false
                }
            },
            TokenKind::LBracket => self.array_attribute(),
            TokenKind::LBrace => self.dictionary_attribute(),
            TokenKind::Loc => self.location_attribute(),
            _ => {
                self.error_token();
                false
            },
        }
    }

    /// `-42 : i32`, `1.5`: a number with an optional type.
    fn numeric_attribute(&mut self) -> (r: bool)
        requires
            old(self).wf(),
            spec_numeric_start(old(self).cur()),
        ensures
            final(self).wf(),
            old(self).keeps(*final(self)),
            final(self).position > old(self).position,
        decreases old(self).rem(), 15int,
    {
        let ghost outer = self.builder.spec_open();
        let marker = self.start();
        if self.at(TokenKind::Plus) || self.at(TokenKind::Minus) {
            self.bump();
        }
        let mut kind = match self.current() {
            TokenKind::Integer => SyntaxKind::IntegerAttribute,
            TokenKind::WideInteger => SyntaxKind::WideNumber,
            TokenKind::Float => SyntaxKind::FloatAttribute,
            _ => {
                self.diagnostic();
                self.complete(marker, SyntaxKind::IntegerAttribute, true, Ghost(outer));
                return false;
            },
        };
        let numeric_at = self.position;
        let numeric_range = self.tokens[self.position].range();
        let oversized = numeric_range.len() as usize > self.limits.max_numeric_literal_bytes;
        self.bump();
        self.trivia();
        let mut good = true;
        if self.at(TokenKind::Colon) {
            self.bump();
            self.trivia();
            good = self.type_syntax(0);
            if self.tokens[self.position - 1].kind() == TokenKind::FloatType {
                kind = SyntaxKind::FloatAttribute;
            }
            if !good {
                self.diagnostic();
            }
        }
        if oversized {
            let ghost before = self.diagnostics@;
            self.diagnostics.push(ParseDiagnostic::new(numeric_range, ParseDiagnosticKind::Syntax));
            proof {
                assert forall|k: int| 0 <= k < self.diagnostics@.len() implies exists|i: int|
                    0 <= i < self.tokens@.len() && #[trigger] self.diagnostics@[k].spec_range()
                        == self.tokens@[i].spec_range() by {
                    if k < before.len() {
                        assert(self.diagnostics@[k] == before[k]);
                        assert(diagnostics_at_tokens(before, self.tokens@));
                        let i = choose|i: int| 0 <= i < self.tokens@.len() && before[k].spec_range() == self.tokens@[i].spec_range();
                        assert(self.diagnostics@[k].spec_range() == self.tokens@[i].spec_range());
                    } else {
                        assert(self.diagnostics@[k].spec_range() == self.tokens@[numeric_at as int].spec_range());
                    }
                }
            }
            self.complete(marker, SyntaxKind::WideNumber, true, Ghost(outer));
            return false;
        }
        self.complete(marker, kind, !good, Ghost(outer));
        good
    }

    /// `dense<...> : tensor<...>` and its kin: a payload and its type.
    fn payload_attribute(&mut self, kind: SyntaxKind) -> (r: bool)
        requires
            old(self).wf(),
            old(self).cur() != TokenKind::Eof,
        ensures
            final(self).wf(),
            old(self).keeps(*final(self)),
            final(self).position > old(self).position,
        decreases old(self).rem(), 13int,
    {
        let ghost outer = self.builder.spec_open();
        let marker = self.start();
        self.bump();
        let mut good = self.expect(TokenKind::Less);
        let payload_start = self.tokens[self.position - 1].range().end();
        let payload = self.scan_balanced_payload(payload_start);
        good = good && payload;
        self.trivia();
        let colon = self.expect(TokenKind::Colon);
        good = good && colon;
        self.trivia();
        let ty = self.type_syntax(0);
        good = good && ty;
        self.complete(marker, kind, !good, Ghost(outer));
        good
    }

    /// `"text" : type`: a string with an optional type.
    fn string_attribute(&mut self) -> (r: bool)
        requires
            old(self).wf(),
            old(self).cur() != TokenKind::Eof,
        ensures
            final(self).wf(),
            old(self).keeps(*final(self)),
            final(self).position > old(self).position,
        decreases old(self).rem(), 15int,
    {
        let ghost outer = self.builder.spec_open();
        let marker = self.start();
        self.bump();
        self.trivia();
        let mut good = true;
        if self.at(TokenKind::Colon) {
            self.bump();
            self.trivia();
            good = self.type_syntax(0);
            if !good {
                self.diagnostic();
            }
        }
        self.complete(marker, SyntaxKind::StringAttribute, !good, Ghost(outer));
        good
    }

    /// `[a, b, c]`: an array of attribute values.
    fn array_attribute(&mut self) -> (r: bool)
        requires
            old(self).wf(),
            old(self).cur() == TokenKind::LBracket,
        ensures
            final(self).wf(),
            old(self).keeps(*final(self)),
            final(self).position > old(self).position,
        decreases old(self).rem(), 15int,
    {
        let ghost outer = self.builder.spec_open();
        let marker = self.start();
        if !self.enter_attribute_container(TokenKind::LBracket, TokenKind::RBracket) {
            self.complete(marker, SyntaxKind::ArrayAttribute, true, Ghost(outer));
            return false;
        }
        let mut good = self.expect(TokenKind::LBracket);
        self.trivia();
        while !self.at(TokenKind::RBracket) && !self.at(TokenKind::RBrace) && !self.at(TokenKind::Eof)
            invariant
                self.wf(),
                old(self).opened(*self, marker as int),
                self.nesting_depth == old(self).nesting_depth + 1,
                self.position > old(self).position,
            decreases self.tokens@.len() - self.position,
        {
            let value = self.attribute_value();
            good = good && value;
            self.trivia();
            if self.at(TokenKind::Comma) {
                self.bump();
                self.trivia();
            } else if !self.at(TokenKind::RBracket) {
                good = false;
                self.diagnostic();
            }
        }
        let closed = self.expect(TokenKind::RBracket);
        good = good && closed;
        self.nesting_depth = self.nesting_depth - 1;
        self.complete(marker, SyntaxKind::ArrayAttribute, !good, Ghost(outer));
        good
    }

    /// `{a = 1, b}`: a dictionary attribute.
    fn dictionary_attribute(&mut self) -> (r: bool)
        requires
            old(self).wf(),
            old(self).cur() == TokenKind::LBrace,
        ensures
            final(self).wf(),
            old(self).keeps(*final(self)),
            final(self).position > old(self).position,
        decreases old(self).rem(), 15int,
    {
        let ghost outer = self.builder.spec_open();
        let marker = self.start();
        if !self.enter_attribute_container(TokenKind::LBrace, TokenKind::RBrace) {
            self.complete(marker, SyntaxKind::DictionaryAttribute, true, Ghost(outer));
            return false;
        }
        let good = self.dictionary_entries();
        self.nesting_depth = self.nesting_depth - 1;
        self.complete(marker, SyntaxKind::DictionaryAttribute, !good, Ghost(outer));
        good
    }

    /// `affine_map<(d0)[s0] -> (d0 + s0)>` or `affine_set<(d0) : (d0 >= 0)>`.
    fn affine_value(&mut self, kind: SyntaxKind) -> (r: bool)
        requires
            old(self).wf(),
            old(self).cur() != TokenKind::Eof,
        ensures
            final(self).wf(),
            old(self).keeps(*final(self)),
            final(self).position > old(self).position,
        decreases old(self).rem(), 11int,
    {
        let ghost outer = self.builder.spec_open();
        let marker = self.start();
        let ghost with_marker = self.builder.spec_open();
        self.bump();
        self.trivia();
        let mut good = self.expect(TokenKind::Less);
        self.trivia();
        let dims = self.affine_identifier_list();
        good = good && dims;
        self.trivia();
        if self.at(TokenKind::LBracket) {
            let symbols = self.affine_identifier_list();
            good = good && symbols;
            self.trivia();
        }
        let separator = self.expect(
            if kind == SyntaxKind::AffineMap {
                TokenKind::Arrow
            } else {
                TokenKind::Colon
            },
        );
        good = good && separator;
        self.trivia();
        let paren = self.expect(TokenKind::LParen);
        good = good && paren;
        self.trivia();
        while !self.at(TokenKind::RParen) && !self.at(TokenKind::Greater) && !self.at(TokenKind::Eof)
            invariant
                self.wf(),
                old(self).opened(*self, marker as int),
                with_marker == outer.push(marker as int),
                outer == old(self).builder.spec_open(),
                self.nesting_depth == old(self).nesting_depth,
                self.position > old(self).position,
            decreases self.tokens@.len() - self.position,
        {
            let before = self.position;
            let expression = self.affine_expression();
            good = good && expression.is_some();
            self.trivia();
            if kind == SyntaxKind::IntegerSet {
                let mut constraint: Option<usize> = None;
                match expression {
                    Some(e) => {
                        if self.builder.child_of_innermost(e) {
                            self.precede_node(e, SyntaxKind::AffineConstraint);
                            constraint = Some(e);
                        }
                    },
                    None => {},
                }
                if self.at(TokenKind::Less) || self.at(TokenKind::Greater) || self.at(TokenKind::Equal) {
                    self.bump();
                    if self.at(TokenKind::Equal) {
                        self.bump();
                    } else {
                        good = false;
                        self.diagnostic();
                    }
                    self.trivia();
                    let right = self.affine_expression();
                    good = good && right.is_some();
                } else {
                    good = false;
                    self.diagnostic();
                }
                match constraint {
                    Some(c) => {
                        self.complete(c, SyntaxKind::AffineConstraint, !good, Ghost(with_marker));
                    },
                    None => {},
                }
            }
            self.trivia();
            if self.at(TokenKind::Comma) {
                self.bump();
                self.trivia();
            } else {
                break;
            }
            self.ensure_progress(before);
        }
        let closed = self.expect(TokenKind::RParen);
        good = good && closed;
        self.trivia();
        let end = self.expect(TokenKind::Greater);
        good = good && end;
        self.complete(marker, kind, !good, Ghost(outer));
        good
    }
}

/// The open nodes that the pending parenthesized groups of an affine expression
/// hold: for each, its unary minus when it has one, then its parenthesis.
pub open spec fn frame_markers(d: Seq<(usize, usize, usize, Option<usize>)>) -> Seq<int>
    decreases d.len(),
{
    if d.len() == 0 {
        Seq::empty()
    } else {
        frame_markers(d.drop_last()) + match d.last().3 {
            Some(u) => seq![u as int, d.last().2 as int],
            None => seq![d.last().2 as int],
        }
    }
}

proof fn lemma_frame_markers_push(d: Seq<(usize, usize, usize, Option<usize>)>, f: (usize, usize, usize, Option<usize>))
    ensures
        frame_markers(d.push(f)) == frame_markers(d) + match f.3 {
            Some(u) => seq![u as int, f.2 as int],
            None => seq![f.2 as int],
        },
{
    assert(d.push(f).drop_last() =~= d);
}

/// Every pending group of an affine expression was opened at or after node `bound`.
pub open spec fn frames_from(d: Seq<(usize, usize, usize, Option<usize>)>, bound: int) -> bool {
    forall|k: int|
        0 <= k < d.len() ==> #[trigger] d[k].2 >= bound && (d[k].3 matches Some(u) ==> u >= bound)
}

#[verifier::spinoff_prover]
proof fn lemma_frames_from_push(d: Seq<(usize, usize, usize, Option<usize>)>, f: (usize, usize, usize, Option<usize>), bound: int)
    ensures
        frames_from(d.push(f), bound) <==> frames_from(d, bound) && f.2 >= bound && (f.3 matches Some(
            u,
        ) ==> u >= bound),
{
    if frames_from(d, bound) && f.2 >= bound && (f.3 matches Some(u) ==> u >= bound) {
        assert forall|k: int| 0 <= k < d.push(f).len() implies #[trigger] d.push(f)[k].2 >= bound && (d.push(
            f,
        )[k].3 matches Some(u) ==> u >= bound) by {
            if k < d.len() {
                assert(d.push(f)[k] == d[k]);
            }
        }
    }
    if frames_from(d.push(f), bound) {
        assert forall|k: int| 0 <= k < d.len() implies #[trigger] d[k].2 >= bound && (d[k].3 matches Some(
            u,
        ) ==> u >= bound) by {
            assert(d.push(f)[k] == d[k]);
        }
        assert(d.push(f)[d.len() as int] == f);
        let last = d.push(f)[d.len() as int];
        assert(last.2 >= bound && (last.3 matches Some(u) ==> u >= bound));
    }
}

/// How tightly an affine operator binds: `+` and `-` least, then `*`, `mod`,
/// `floordiv` and `ceildiv`.
fn affine_precedence(kind: TokenKind) -> (r: Option<u8>)
    ensures
        r is Some ==> kind != TokenKind::Eof,
        r == (if kind == TokenKind::Plus || kind == TokenKind::Minus {
            Some(1u8)
        } else if kind == TokenKind::Star || kind == TokenKind::Mod || kind == TokenKind::FloorDiv
            || kind == TokenKind::CeilDiv {
            Some(2u8)
        } else {
            None
        }),
{
    match kind {
        TokenKind::Plus | TokenKind::Minus => Some(1),
        TokenKind::Star | TokenKind::Mod | TokenKind::FloorDiv | TokenKind::CeilDiv => Some(2),
        _ => None,
    }
}

impl<'a> Parser<'a> {
    /// Opens a node of `kind` in front of `c`, a finished child of the innermost
    /// open node.
    fn precede_node(&mut self, c: usize, kind: SyntaxKind)
        requires
            old(self).wf(),
            old(self).builder.spec_child_of_innermost(c as int),
        ensures
            diagnostics_kept(old(self).diagnostics@, final(self).diagnostics@),
            final(self).registry == old(self).registry,
            final(self).wf(),
            final(self).builder.spec_open() == old(self).builder.spec_open().push(c as int),
            final(self).builder.spec_len() == old(self).builder.spec_len() + 1,
            forall|i: int|
                0 <= i < c ==> #[trigger] final(self).builder.spec_nodes()[i] == old(self).builder.spec_nodes()[i],
            final(self).tokens@ == old(self).tokens@,
            final(self).source@ == old(self).source@,
            final(self).limits == old(self).limits,
            final(self).nesting_depth == old(self).nesting_depth,
            final(self).position == old(self).position,
            final(self).builder.spec_nodes() == preceded(
                old(self).builder.spec_nodes(),
                c as int,
                kind,
                old(self).position as int,
            ),
            final(self).diagnostics@ == old(self).diagnostics@,
    {
        let ghost before = self.builder.spec_nodes();
        self.builder.precede(c, kind);
        proof {
            let expected = preceded(before, c as int, kind, self.position as int);
            assert forall|i: int| 0 <= i < expected.len() implies #[trigger] self.builder.spec_nodes()[i] == expected[i] by {
                if i > c {
                    assert(self.builder.spec_kind((i - 1) + 1) == before[i - 1].kind);
                }
            }
            assert(self.builder.spec_nodes() =~= expected);
        }
    }

    /// Applies the innermost pending operator to the two innermost operands: the
    /// left one is wrapped, with the operator and the right one, in a new node.
    /// `false` when an operand is missing or the left one cannot be wrapped.
    fn reduce_affine_operator(
        &mut self,
        operands: &mut Vec<usize>,
        operators: &mut Vec<u8>,
        Ghost(bound): Ghost<int>,
        Ghost(added): Ghost<Seq<(int, ParseDiagnosticKind)>>,
    ) -> (r: bool)
        requires
            old(self).wf(),
            bound <= old(self).builder.spec_len(),
            forall|i: int| 0 <= i < old(operands)@.len() ==> #[trigger] old(operands)@[i] >= bound,
        ensures
            final(self).wf(),
            old(self).keeps_below(*final(self), bound),
            final(self).position == old(self).position,
            forall|i: int| 0 <= i < final(operands)@.len() ==> #[trigger] final(operands)@[i] >= bound,
            old(operators)@.len() > 0 ==> final(operators)@.len() == old(operators)@.len() - 1,
            old(operators)@.len() == 0 ==> final(operators)@.len() == 0,
            final(self).diagnostics@ == old(self).diagnostics@,
            ({
                let (b, o, p, g) = reduce_one(old(self).build_with(added), old(operands)@, old(operators)@);
                &&& final(self).build_with(added) == b
                &&& final(operands)@ == o
                &&& final(operators)@ == p
                &&& r == g
            }),
    {
        operators.pop();
        let right = match operands.pop() {
            Some(right) => right,
            None => {
                return false;
            },
        };
        let left = match operands.pop() {
            Some(left) => left,
            None => {
                operands.push(right);
                return false;
            },
        };
        let ghost b0 = self.build_with(added);
        proof {
            let l = left as int;
            if self.builder.spec_child_of_innermost(l) {
                assert forall|i: int| b0.open.last() < i < l implies #[trigger] b0.nodes[i].end <= l by {
                    assert(self.builder.spec_end(i) <= l);
                }
            }
            if build_child(b0, l) {
                assert forall|i: int| self.builder.spec_open().last() < i < l implies #[trigger] self.builder.spec_end(i) <= l by {
                    assert(b0.nodes[i].end <= l);
                }
            }
            assert(self.builder.spec_child_of_innermost(l) == build_child(b0, l));
        }
        if self.builder.child_of_innermost(left) {
            let ghost open = self.builder.spec_open();
            self.precede_node(left, SyntaxKind::AffineExpression);
            let ghost wrapped = self.build_with(added);
            self.complete(left, SyntaxKind::AffineExpression, false, Ghost(open));
            operands.push(left);
            proof {
                assert(wrapped.open == open.push(left as int));
                assert(open.push(left as int).drop_last() =~= open);
                assert(self.builder.spec_nodes() =~= build_complete(wrapped, SyntaxKind::AffineExpression, false).nodes);
            }
            true
        } else {
            operands.push(left);
            false
        }
    }

    /// Reduces pending operators down to `floor`, while they bind at least as
    /// tightly as `precedence` when one is given; whether every reduction held.
    fn reduce_affine_operators(
        &mut self,
        operands: &mut Vec<usize>,
        operators: &mut Vec<u8>,
        floor: usize,
        precedence: Option<u8>,
        Ghost(bound): Ghost<int>,
        Ghost(added): Ghost<Seq<(int, ParseDiagnosticKind)>>,
    ) -> (r: bool)
        requires
            old(self).wf(),
            bound <= old(self).builder.spec_len(),
            forall|i: int| 0 <= i < old(operands)@.len() ==> #[trigger] old(operands)@[i] >= bound,
        ensures
            final(self).wf(),
            old(self).keeps_below(*final(self), bound),
            final(self).position == old(self).position,
            forall|i: int| 0 <= i < final(operands)@.len() ==> #[trigger] final(operands)@[i] >= bound,
            precedence is None ==> final(operators)@.len() <= floor,
            final(self).diagnostics@ == old(self).diagnostics@,
            ({
                let (b, o, p, g) = reduce_ops(
                    old(self).build_with(added),
                    old(operands)@,
                    old(operators)@,
                    floor as int,
                    precedence,
                    true,
                );
                &&& final(self).build_with(added) == b
                &&& final(operands)@ == o
                &&& final(operators)@ == p
                &&& r == g
            }),
    {
        let mut good = true;
        let ghost goal = reduce_ops(self.build_with(added), operands@, operators@, floor as int, precedence, true);
        loop
            invariant_except_break
                reduce_ops(self.build_with(added), operands@, operators@, floor as int, precedence, good) == goal,
            invariant
                self.wf(),
                old(self).keeps_below(*self, bound),
                self.position == old(self).position,
                bound <= self.builder.spec_len(),
                forall|i: int| 0 <= i < operands@.len() ==> #[trigger] operands@[i] >= bound,
                self.diagnostics@ == old(self).diagnostics@,
            ensures
                self.wf(),
                old(self).keeps_below(*self, bound),
                self.position == old(self).position,
                forall|i: int| 0 <= i < operands@.len() ==> #[trigger] operands@[i] >= bound,
                precedence is None ==> operators@.len() <= floor,
                self.diagnostics@ == old(self).diagnostics@,
                (self.build_with(added), operands@, operators@, good) == goal,
            decreases operators@.len(),
        {
            if operators.len() <= floor {
                break;
            }
            let binds = match precedence {
                Some(p) => operators[operators.len() - 1] >= p,
                None => true,
            };
            if !binds {
                break;
            }
            let reduced = self.reduce_affine_operator(operands, operators, Ghost(bound), Ghost(added));
            good = good && reduced;
        }
        good
    }

    /// An affine expression, by precedence over a stack of operands, operators and
    /// parenthesized groups; the node of the whole expression when there is one.
    fn affine_expression(&mut self) -> (r: Option<usize>)
        requires
            old(self).wf(),
        ensures
            final(self).wf(),
            old(self).keeps(*final(self)),
            ({
                let (b, res) = read_affine_expression(old(self).tokens@, old(self).build_with(seq![]));
                &&& final(self).position == b.c.pos
                &&& final(self).builder.spec_nodes() == b.nodes
                &&& added_as(old(self).diagnostics@, final(self).diagnostics@, old(self).tokens@, b.c.added)
                &&& r == res
            }),
    {
        let ghost toks = self.tokens@;
        let ghost d0 = self.diagnostics@;
        proof {
            assert(d0.subrange(0, d0.len() as int) =~= d0);
        }
        let ghost mut added: Seq<(int, ParseDiagnosticKind)> = seq![];
        let ghost base = self.builder.spec_open();
        let ghost bound = self.builder.spec_len() as int;
        let mut operands: Vec<usize> = Vec::new();
        let mut operators: Vec<u8> = Vec::new();
        let mut delimiters: Vec<(usize, usize, usize, Option<usize>)> = Vec::new();
        let mut expect_operand = true;
        let mut bad = false;
        let ghost goal = affine_loop(toks, (AffineScan { b: self.build_with(added), operands: operands@, operators: operators@, frames: delimiters@, expect: expect_operand, bad }));
        proof {
            assert(operands@ =~= Seq::<usize>::empty());
            assert(operators@ =~= Seq::<u8>::empty());
            assert(delimiters@ =~= Seq::<(usize, usize, usize, Option<usize>)>::empty());
            assert(added =~= Seq::<(int, ParseDiagnosticKind)>::empty());
            assert(goal == affine_loop(
                toks,
                AffineScan { b: old(self).build_with(seq![]), operands: seq![], operators: seq![], frames: seq![], expect: true, bad: false },
            ));
        }
        loop
            invariant_except_break
                affine_loop(toks, (AffineScan { b: self.build_with(added), operands: operands@, operators: operators@, frames: delimiters@, expect: expect_operand, bad })) == goal,
            invariant
                toks == self.tokens@,
                d0 == old(self).diagnostics@,
                added_as(d0, self.diagnostics@, toks, added),
                self.wf(),
                old(self).keeps_nodes_below(*self, bound),
                self.builder.spec_open() == base + frame_markers(delimiters@),
                base == old(self).builder.spec_open(),
                bound == old(self).builder.spec_len(),
                bound <= self.builder.spec_len(),
                forall|i: int| 0 <= i < operands@.len() ==> #[trigger] operands@[i] >= bound,
                frames_from(delimiters@, bound),
            ensures
                toks == self.tokens@,
                d0 == old(self).diagnostics@,
                added_as(d0, self.diagnostics@, toks, added),
                self.wf(),
                old(self).keeps_nodes_below(*self, bound),
                self.builder.spec_open() == base + frame_markers(delimiters@),
                bound <= self.builder.spec_len(),
                forall|i: int| 0 <= i < operands@.len() ==> #[trigger] operands@[i] >= bound,
                frames_from(delimiters@, bound),
                (AffineScan { b: self.build_with(added), operands: operands@, operators: operators@, frames: delimiters@, expect: expect_operand, bad }) == goal,
            decreases self.tokens@.len() - self.position,
        {
            let ghost prev = (AffineScan { b: self.build_with(added), operands: operands@, operators: operators@, frames: delimiters@, expect: expect_operand, bad });
            self.trivia();
            if expect_operand {
                if self.at(TokenKind::Minus) {
                    let ghost before_unary = self.builder.spec_open();
                    let unary = self.start();
                    self.bump();
                    self.trivia();
                    if self.at(TokenKind::LParen) {
                        if delimiters.len() >= MAX_TYPE_DEPTH {
                            let ghost dm = self.diagnostics@;
                            let ghost at = self.position as int;
                            self.diagnostic();
                            proof {
                                lemma_added_report(d0, dm, self.diagnostics@, toks, added, at, ParseDiagnosticKind::Syntax);
                                added = added.push((at, ParseDiagnosticKind::Syntax));
                            }
                            bad = true;
                            self.complete(unary, SyntaxKind::AffineExpression, true, Ghost(before_unary));
                            operands.push(unary);
                            proof {
                                assert(affine_step(toks, prev) == ((AffineScan { b: self.build_with(added), operands: operands@, operators: operators@, frames: delimiters@, expect: expect_operand, bad }), false));
                            }
                            break;
                        }
                        let marker = self.start();
                        self.bump();
                        let ghost old_delimiters = delimiters@;
                        delimiters.push((operators.len(), operands.len(), marker, Some(unary)));
                        proof {
                            lemma_frame_markers_push(old_delimiters, (operators@.len() as usize, operands@.len() as usize, marker, Some(unary)));
                            assert(self.builder.spec_open() =~= base + frame_markers(delimiters@));
                            lemma_frames_from_push(old_delimiters, (operators@.len() as usize, operands@.len() as usize, marker, Some(unary)), bound);
                        }
                        proof {
                            assert(affine_step(toks, prev) == ((AffineScan { b: self.build_with(added), operands: operands@, operators: operators@, frames: delimiters@, expect: expect_operand, bad }), true));
                        }
                        continue;
                    }
                    let good = self.at(TokenKind::Integer) || self.at_identifier();
                    if good {
                        self.bump();
                    } else {
                        let ghost dm = self.diagnostics@;
                        let ghost at = self.position as int;
                        self.diagnostic();
                        proof {
                            lemma_added_report(d0, dm, self.diagnostics@, toks, added, at, ParseDiagnosticKind::Syntax);
                            added = added.push((at, ParseDiagnosticKind::Syntax));
                        }
                        bad = true;
                    }
                    self.complete(unary, SyntaxKind::AffineExpression, !good, Ghost(before_unary));
                    operands.push(unary);
                    expect_operand = false;
                    proof {
                        assert(affine_step(toks, prev) == ((AffineScan { b: self.build_with(added), operands: operands@, operators: operators@, frames: delimiters@, expect: expect_operand, bad }), true));
                    }
                    continue;
                } else if self.at(TokenKind::LParen) {
                    if delimiters.len() >= MAX_TYPE_DEPTH {
                        let ghost dm = self.diagnostics@;
                        let ghost at = self.position as int;
                        self.diagnostic();
                        proof {
                            lemma_added_report(d0, dm, self.diagnostics@, toks, added, at, ParseDiagnosticKind::Syntax);
                            added = added.push((at, ParseDiagnosticKind::Syntax));
                        }
                        bad = true;
                        proof {
                            assert(affine_step(toks, prev) == ((AffineScan { b: self.build_with(added), operands: operands@, operators: operators@, frames: delimiters@, expect: expect_operand, bad }), false));
                        }
                        break;
                    }
                    let marker = self.start();
                    self.bump();
                    let ghost old_delimiters = delimiters@;
                    delimiters.push((operators.len(), operands.len(), marker, None));
                    proof {
                        lemma_frame_markers_push(old_delimiters, (operators@.len() as usize, operands@.len() as usize, marker, None));
                        assert(self.builder.spec_open() =~= base + frame_markers(delimiters@));
                        lemma_frames_from_push(old_delimiters, (operators@.len() as usize, operands@.len() as usize, marker, None), bound);
                    }
                    proof {
                        assert(affine_step(toks, prev) == ((AffineScan { b: self.build_with(added), operands: operands@, operators: operators@, frames: delimiters@, expect: expect_operand, bad }), true));
                    }
                    continue;
                }
                if self.at(TokenKind::Integer) || self.at_identifier() {
                    let ghost before_atom = self.builder.spec_open();
                    let marker = self.start();
                    self.bump();
                    self.complete(marker, SyntaxKind::AffineExpression, false, Ghost(before_atom));
                    operands.push(marker);
                    expect_operand = false;
                    proof {
                        assert(affine_step(toks, prev) == ((AffineScan { b: self.build_with(added), operands: operands@, operators: operators@, frames: delimiters@, expect: expect_operand, bad }), true));
                    }
                    continue;
                }
                let ghost dm = self.diagnostics@;
                let ghost at = self.position as int;
                self.diagnostic();
                proof {
                    lemma_added_report(d0, dm, self.diagnostics@, toks, added, at, ParseDiagnosticKind::Syntax);
                    added = added.push((at, ParseDiagnosticKind::Syntax));
                }
                bad = true;
                proof {
                    assert(affine_step(toks, prev) == ((AffineScan { b: self.build_with(added), operands: operands@, operators: operators@, frames: delimiters@, expect: expect_operand, bad }), false));
                }
                break;
            }
            match affine_precedence(self.current()) {
                Some(precedence) => {
                    let floor = if delimiters.len() > 0 {
                        delimiters[delimiters.len() - 1].0
                    } else {
                        0
                    };
                    let reduced = self.reduce_affine_operators(
                        &mut operands,
                        &mut operators,
                        floor,
                        Some(precedence),
                        Ghost(bound),
                        Ghost(added),
                    );
                    bad = bad || !reduced;
                    self.bump();
                    operators.push(precedence);
                    expect_operand = true;
                    proof {
                        assert(affine_step(toks, prev) == ((AffineScan { b: self.build_with(added), operands: operands@, operators: operators@, frames: delimiters@, expect: expect_operand, bad }), true));
                    }
                    continue;
                },
                None => {},
            }
            if self.at(TokenKind::RParen) && delimiters.len() > 0 {
                let ghost old_delimiters = delimiters@;
                let frame = delimiters.pop().unwrap();
                let (operator_base, operand_base, marker, unary) = frame;
                proof {
                    assert(old_delimiters =~= delimiters@.push(frame));
                    lemma_frame_markers_push(delimiters@, frame);
                    lemma_frames_from_push(delimiters@, frame, bound);
                }
                let reduced = self.reduce_affine_operators(
                    &mut operands,
                    &mut operators,
                    operator_base,
                    None,
                    Ghost(bound),
                    Ghost(added),
                );
                bad = bad || !reduced;
                let inner_good = operands.len() > 0 && operands.len() - 1 == operand_base && !expect_operand;
                self.bump();
                let inner = operands.pop();
                operands.truncate(operand_base);
                bad = bad || inner.is_none();
                let ghost rest = base + frame_markers(delimiters@);
                let mut grouped = marker;
                match unary {
                    Some(u) => {
                        proof {
                            assert(self.builder.spec_open() =~= rest.push(u as int).push(marker as int));
                        }
                        self.complete(marker, SyntaxKind::AffineExpression, !inner_good, Ghost(rest.push(u as int)));
                        self.complete(u, SyntaxKind::AffineExpression, !inner_good, Ghost(rest));
                        grouped = u;
                    },
                    None => {
                        proof {
                            assert(self.builder.spec_open() =~= rest.push(marker as int));
                        }
                        self.complete(marker, SyntaxKind::AffineExpression, !inner_good, Ghost(rest));
                    },
                }
                operands.push(grouped);
                expect_operand = false;
                proof {
                    assert(affine_step(toks, prev) == ((AffineScan { b: self.build_with(added), operands: operands@, operators: operators@, frames: delimiters@, expect: expect_operand, bad }), true));
                }
                continue;
            }
            proof {
                assert(affine_step(toks, prev) == ((AffineScan { b: self.build_with(added), operands: operands@, operators: operators@, frames: delimiters@, expect: expect_operand, bad }), false));
            }
            break;
        }
        if expect_operand && operators.len() > 0 {
            let ghost dm = self.diagnostics@;
            let ghost at = self.position as int;
            self.diagnostic();
            proof {
                lemma_added_report(d0, dm, self.diagnostics@, toks, added, at, ParseDiagnosticKind::Syntax);
                added = added.push((at, ParseDiagnosticKind::Syntax));
            }
            bad = true;
        }
        let ghost closed_goal = close_frames((AffineScan { b: self.build_with(added), operands: operands@, operators: operators@, frames: delimiters@, expect: expect_operand, bad }));
        proof {
            assert(closed_goal == close_frames(if goal.expect && goal.operators.len() > 0 {
                AffineScan { b: build_report(goal.b), bad: true, ..goal }
            } else {
                goal
            }));
        }
        while delimiters.len() > 0
            invariant
                close_frames((AffineScan { b: self.build_with(added), operands: operands@, operators: operators@, frames: delimiters@, expect: expect_operand, bad })) == closed_goal,
                toks == self.tokens@,
                d0 == old(self).diagnostics@,
                added_as(d0, self.diagnostics@, toks, added),
                self.wf(),
                old(self).keeps_nodes_below(*self, bound),
                self.builder.spec_open() == base + frame_markers(delimiters@),
                base == old(self).builder.spec_open(),
                bound == old(self).builder.spec_len(),
                bound <= self.builder.spec_len(),
                forall|i: int| 0 <= i < operands@.len() ==> #[trigger] operands@[i] >= bound,
                frames_from(delimiters@, bound),
            decreases delimiters@.len(),
        {
            let ghost old_delimiters = delimiters@;
            let frame = delimiters.pop().unwrap();
            let (operator_base, operand_base, marker, unary) = frame;
            proof {
                assert(old_delimiters =~= delimiters@.push(frame));
                lemma_frame_markers_push(delimiters@, frame);
                lemma_frames_from_push(delimiters@, frame, bound);
            }
            let reduced = self.reduce_affine_operators(
                &mut operands,
                &mut operators,
                operator_base,
                None,
                Ghost(bound),
                Ghost(added),
            );
            bad = bad || !reduced;
            let inner = operands.pop();
            operands.truncate(operand_base);
            bad = bad || inner.is_none();
            let ghost rest = base + frame_markers(delimiters@);
            let mut grouped = marker;
            match unary {
                Some(u) => {
                    proof {
                        assert(self.builder.spec_open() =~= rest.push(u as int).push(marker as int));
                    }
                    self.complete(marker, SyntaxKind::AffineExpression, true, Ghost(rest.push(u as int)));
                    self.complete(u, SyntaxKind::AffineExpression, true, Ghost(rest));
                    grouped = u;
                },
                None => {
                    proof {
                        assert(self.builder.spec_open() =~= rest.push(marker as int));
                    }
                    self.complete(marker, SyntaxKind::AffineExpression, true, Ghost(rest));
                },
            }
            operands.push(grouped);
        }
        proof {
            assert(frame_markers(delimiters@) =~= Seq::<int>::empty());
            assert(self.builder.spec_open() =~= base);
        }
        proof {
            assert((AffineScan { b: self.build_with(added), operands: operands@, operators: operators@, frames: delimiters@, expect: expect_operand, bad }) == closed_goal);
        }
        let reduced = self.reduce_affine_operators(&mut operands, &mut operators, 0, None, Ghost(bound), Ghost(added));
        bad = bad || !reduced;
        let result = operands.pop();
        if operands.len() > 0 {
            let ghost dm = self.diagnostics@;
            let ghost at = self.position as int;
            self.diagnostic();
            proof {
                lemma_added_report(d0, dm, self.diagnostics@, toks, added, at, ParseDiagnosticKind::Syntax);
                added = added.push((at, ParseDiagnosticKind::Syntax));
            }
            bad = true;
        }
        if bad {
            match result {
                Some(r) => {
                    let ghost b3 = self.build_with(added);
                    proof {
                        let l = r as int;
                        if self.builder.spec_child_of_innermost(l) {
                            assert forall|i: int| b3.open.last() < i < l implies #[trigger] b3.nodes[i].end <= l by {
                                assert(self.builder.spec_end(i) <= l);
                            }
                        }
                        if build_child(b3, l) {
                            assert forall|i: int| self.builder.spec_open().last() < i < l implies #[trigger] self.builder.spec_end(i) <= l by {
                                assert(b3.nodes[i].end <= l);
                            }
                        }
                    }
                    if self.builder.child_of_innermost(r) {
                        self.precede_node(r, SyntaxKind::AffineExpression);
                        self.complete(r, SyntaxKind::AffineExpression, true, Ghost(base));
                        proof {
                            assert(self.build_with(added) == build_complete(
                                Build {
                                    nodes: preceded(b3.nodes, r as int, SyntaxKind::AffineExpression, b3.c.pos),
                                    open: b3.open.push(r as int),
                                    ..b3
                                },
                                SyntaxKind::AffineExpression,
                                true,
                            ));
                        }
                    }
                    return Some(r);
                },
                None => {},
            }
        }
        result
    }
}

impl<'a> Parser<'a> {
    /// `#name = value` or `!name = type`: an alias definition.
    fn alias_definition(&mut self)
        requires
            old(self).wf(),
            old(self).cur() == TokenKind::HashIdentifier || old(self).cur()
                == TokenKind::ExclamationIdentifier,
        ensures
            final(self).wf(),
            old(self).keeps(*final(self)),
            final(self).position > old(self).position,
    {
        let ghost outer = self.builder.spec_open();
        let marker = self.start();
        let is_type = self.at(TokenKind::ExclamationIdentifier);
        self.bump();
        self.trivia();
        let mut good = self.expect(TokenKind::Equal);
        self.trivia();
        if is_type {
            if self.at(TokenKind::BareIdentifier) {
                self.bump();
                self.trivia();
            }
            if self.at(TokenKind::LParen) {
                self.function_type();
            } else {
                let ty = self.type_syntax(0);
                good = good && ty;
            }
        } else {
            let value = self.attribute_value();
            good = good && value;
        }
        self.complete(marker, SyntaxKind::AliasDefinition, !good, Ghost(outer));
    }
}

/// Parses the token tape of `source` into a builder whose nodes, under a `File`
/// root that covers every token, are the file's metadata, alias definitions and
/// operations, with the diagnostics of what could not be parsed.
pub(crate) fn produce_operation_events(
    tokens: &[Token],
    source: &[u8],
    registry: &DialectRegistry,
    limits: ParserLimits,
) -> (r: (
    TreeBuilder,
    Vec<ParseDiagnostic>,
))
    requires
        eof_terminated(tokens@),
    ensures
        r.0.wf(),
        r.0.spec_tokens() == tokens@,
        r.0.spec_open().len() == 0,
        r.0.spec_len() > 0,
        r.0.spec_end(0) == r.0.spec_len(),
        r.0.spec_first(0) == 0,
        r.0.spec_last(0) == tokens@.len(),
        r.0.spec_kind(0) == SyntaxKind::File,
        diagnostics_at_tokens(r.1@, tokens@),
        first_item_read(
            r.0.spec_len(),
            r.0.spec_kind(1),
            r.0.spec_error(1),
            r.0.spec_first(1),
            r.1@,
            tokens@,
            source@,
            *registry,
        ),
{
    let copy = super::copy_tokens(tokens);
    let mut parser = Parser {
        tokens,
        position: 0,
        builder: TreeBuilder::new(copy),
        diagnostics: Vec::new(),
        limits,
        nesting_depth: 0,
        source,
        registry,
    };
    let _count = tokens.len();
    let ghost empty = parser.builder.spec_open();
    let root = parser.start();
    let ghost root_node = parser.builder.spec_nodes()[0];
    proof {
        assert(root == 0);
    }
    while !parser.at(TokenKind::Eof)
        invariant
            parser.wf(),
            parser.tokens@ == tokens@,
            parser.builder.spec_open() == empty.push(root as int),
            empty.len() == 0,
            root == 0,
            parser.builder.spec_len() > 0,
            parser.builder.spec_nodes()[0] == root_node,
            root_node.first == 0,
            parser.source@ == source@,
            parser.registry == registry,
            parser.position == 0 ==> parser.builder.spec_len() == 1 && parser.diagnostics@.len() == 0,
            parser.position > 0 ==> first_item_read(
                parser.builder.spec_len(),
                parser.builder.spec_kind(1),
                parser.builder.spec_error(1),
                parser.builder.spec_first(1),
                parser.diagnostics@,
                tokens@,
                source@,
                *registry,
            ),
        decreases parser.tokens@.len() - parser.position,
    {
        let before = parser.position;
        let ghost len0 = parser.builder.spec_len();
        parser.trivia();
        if parser.at(TokenKind::FileMetadataBegin) {
            parser.file_metadata();
        } else if (parser.at(TokenKind::HashIdentifier) || parser.at(TokenKind::ExclamationIdentifier))
            && parser.nth_is(1, TokenKind::Equal) {
            parser.alias_definition();
        } else if parser.at(TokenKind::String) || parser.at(TokenKind::PercentIdentifier) || parser.at(
            TokenKind::BareIdentifier,
        ) {
            parser.operation();
        } else if !parser.at(TokenKind::Eof) {
            parser.error_token();
        }
        parser.ensure_progress(before);
    }
    let Parser {
        tokens: _,
        position: _,
        builder: mut builder,
        diagnostics,
        limits: _,
        nesting_depth: _,
        source: _,
        registry: _,
    } = parser;
    builder.token();
    builder.finish_node_as(SyntaxKind::File, false);
    (builder, diagnostics)
}

/// The unit of a per-operand count: one for a well-formed type.
fn count_of(good: bool) -> (r: usize)
    ensures
        r == (if good {
            1usize
        } else {
            0usize
        }),
{
    if good {
        1
    } else {
        0
    }
}

impl<'a> Parser<'a> {
    /// An operation in the generic shape that a registry assigned to its name:
    /// `name @sym(args) -> results attributes {...} {region}` for function-like
    /// operations, `name @sym(operands) {attrs} : type` for call-like ones.
    fn shaped_operation(&mut self, marker: usize, shape: OperationShape, Ghost(outer): Ghost<Seq<int>>)
        requires
            old(self).wf(),
            old(self).builder.spec_open() == outer.push(marker as int),
            marker < old(self).builder.spec_len(),
            old(self).cur() == TokenKind::BareIdentifier,
        ensures
            diagnostics_kept(old(self).diagnostics@, final(self).diagnostics@),
            final(self).registry == old(self).registry,
            final(self).wf(),
            final(self).builder.spec_open() == outer,
            old(self).builder.spec_len() <= final(self).builder.spec_len(),
            forall|i: int|
                0 <= i < old(self).builder.spec_len() && i != marker ==> #[trigger] final(
                self).builder.spec_nodes()[i] == old(self).builder.spec_nodes()[i],
            final(self).tokens@ == old(self).tokens@,
            final(self).source@ == old(self).source@,
            final(self).limits == old(self).limits,
            final(self).nesting_depth == old(self).nesting_depth,
            final(self).position > old(self).position,
            final(self).builder.spec_first(marker as int) == old(self).builder.spec_first(marker as int),
            final(self).builder.spec_end(marker as int) == final(self).builder.spec_len(),
        decreases old(self).rem(), 18int,
    {
        let mut good = self.expect(TokenKind::BareIdentifier);
        self.trivia();
        let symbol = self.expect(TokenKind::AtIdentifier);
        good = good && symbol;
        self.trivia();
        match shape {
            OperationShape::FuncLike => {
                let arguments = self.block_argument_list(SyntaxKind::BlockArgumentList);
                good = good && arguments;
                self.trivia();
                if self.at(TokenKind::Arrow) {
                    self.bump();
                    self.trivia();
                    if self.at(TokenKind::LParen) {
                        self.type_list(0);
                    } else {
                        let result = self.type_syntax(0);
                        good = good && result;
                    }
                    self.trivia();
                }
                if self.at(TokenKind::BareIdentifier) && self.current_is(
                    &[0x61u8, 0x74, 0x74, 0x72, 0x69, 0x62, 0x75, 0x74, 0x65, 0x73],
                ) {
                    self.bump();
                    self.trivia();
                    self.attribute_dict();
                    self.trivia();
                }
                if self.at(TokenKind::LBrace) {
                    self.region();
                }
            },
            OperationShape::CallLike => {
                self.operand_list();
                self.trivia();
                if self.at(TokenKind::LBrace) {
                    self.attribute_dict();
                    self.trivia();
                }
                let colon = self.expect(TokenKind::Colon);
                good = good && colon;
                self.trivia();
                self.function_type();
            },
        }
        self.complete(marker, SyntaxKind::DialectOperation, !good, Ghost(outer));
    }

    /// An operation in the custom syntax of a registered assembly program, as a
    /// node of `kind` under `marker`.
    #[verifier::spinoff_prover]
    #[verifier::rlimit(80)]
    fn parse_assembly_program(
        &mut self,
        marker: usize,
        program: AssemblyProgram,
        kind: SyntaxKind,
        Ghost(outer): Ghost<Seq<int>>,
    )
        requires
            old(self).wf(),
            old(self).builder.spec_open() == outer.push(marker as int),
            marker < old(self).builder.spec_len(),
            old(self).cur() == TokenKind::BareIdentifier,
        ensures
            diagnostics_kept(old(self).diagnostics@, final(self).diagnostics@),
            final(self).registry == old(self).registry,
            final(self).wf(),
            final(self).builder.spec_open() == outer,
            old(self).builder.spec_len() <= final(self).builder.spec_len(),
            forall|i: int|
                0 <= i < old(self).builder.spec_len() && i != marker ==> #[trigger] final(
                self).builder.spec_nodes()[i] == old(self).builder.spec_nodes()[i],
            final(self).tokens@ == old(self).tokens@,
            final(self).source@ == old(self).source@,
            final(self).limits == old(self).limits,
            final(self).nesting_depth == old(self).nesting_depth,
            final(self).position > old(self).position,
            assembly_error_facts(
                program,
                old(self).tokens@,
                old(self).source@,
                old(self).position as int,
                final(self).builder.spec_error(marker as int),
            ),
            program == AssemblyProgram::OptionalTypedOperands ==> ({
                let toks = old(self).tokens@;
                let operands = return_operands(toks, skip_trivia_at(toks, old(self).position + 1), 0);
                !kind_is(toks, operands.0, TokenKind::LBrace) && !kind_is(
                    toks,
                    operands.0,
                    TokenKind::Colon,
                ) ==> {
                    &&& final(self).builder.spec_error(marker as int) == (operands.1 > 0)
                    &&& operands.1 == 0 ==> final(self).diagnostics@ == old(self).diagnostics@
                    &&& operands.1 > 0 ==> reported(
                        old(self).diagnostics@,
                        final(self).diagnostics@,
                        toks[operands.0],
                        ParseDiagnosticKind::Syntax,
                    )
                }
            }),
            final(self).builder.spec_first(marker as int) == old(self).builder.spec_first(marker as int),
            final(self).builder.spec_end(marker as int) == final(self).builder.spec_len(),
        decreases old(self).rem(), 18int,
    {
        let ghost with_marker = outer.push(marker as int);
        match program {
            AssemblyProgram::Module => {
                let mut good = self.expect(TokenKind::BareIdentifier);
                self.trivia();
                if self.at(TokenKind::AtIdentifier) {
                    self.bump();
                    self.trivia();
                }
                if self.at(TokenKind::BareIdentifier) && self.current_is(
                    &[0x61u8, 0x74, 0x74, 0x72, 0x69, 0x62, 0x75, 0x74, 0x65, 0x73],
                ) {
                    self.bump();
                    self.trivia();
                    good = good && self.at(TokenKind::LBrace);
                    self.attribute_dict();
                    self.trivia();
                }
                if self.at(TokenKind::LBrace) {
                    self.region();
                } else {
                    self.diagnostic();
                    good = false;
                }
                self.complete(marker, kind, !good, Ghost(outer));
            },
            AssemblyProgram::Function => {
                let mut good = self.expect(TokenKind::BareIdentifier);
                self.trivia();
                if self.at(TokenKind::BareIdentifier) && (self.current_is(
                    &[0x70u8, 0x75, 0x62, 0x6c, 0x69, 0x63],
                ) || self.current_is(&[0x70u8, 0x72, 0x69, 0x76, 0x61, 0x74, 0x65])
                    || self.current_is(&[0x6eu8, 0x65, 0x73, 0x74, 0x65, 0x64])) {
                    self.bump();
                    self.trivia();
                }
                let symbol = self.expect(TokenKind::AtIdentifier);
                good = good && symbol;
                self.trivia();
                let arguments = self.block_argument_list(SyntaxKind::BlockArgumentList);
                good = good && arguments;
                self.trivia();
                if self.at(TokenKind::Arrow) {
                    self.bump();
                    self.trivia();
                    if self.at(TokenKind::LParen) {
                        self.type_list(0);
                    } else {
                        let result = self.type_syntax(0);
                        good = good && result;
                    }
                    self.trivia();
                }
                if self.at(TokenKind::BareIdentifier) && self.current_is(
                    &[0x61u8, 0x74, 0x74, 0x72, 0x69, 0x62, 0x75, 0x74, 0x65, 0x73],
                ) {
                    self.bump();
                    self.trivia();
                    self.attribute_dict();
                    self.trivia();
                }
                if self.at(TokenKind::LBrace) {
                    self.region();
                }
                self.complete(marker, kind, !good, Ghost(outer));
            },
            AssemblyProgram::Call => {
                let mut good = self.expect(TokenKind::BareIdentifier);
                self.trivia();
                let symbol = self.expect(TokenKind::AtIdentifier);
                good = good && symbol;
                self.trivia();
                self.operand_list();
                self.trivia();
                if self.at(TokenKind::LBrace) {
                    self.attribute_dict();
                    self.trivia();
                }
                let colon = self.expect(TokenKind::Colon);
                good = good && colon;
                self.trivia();
                self.function_type();
                self.complete(marker, kind, !good, Ghost(outer));
            },
            AssemblyProgram::ConditionalBranch => {
                let mut good = self.expect(TokenKind::BareIdentifier);
                self.trivia();
                let condition = self.parse_operand();
                good = good && condition;
                self.trivia();
                let comma = self.expect(TokenKind::Comma);
                good = good && comma;
                self.trivia();
                let list = self.start();
                let ghost with_list = self.builder.spec_open();
                let first = self.parse_successor();
                good = good && first;
                self.trivia();
                let separator = self.expect(TokenKind::Comma);
                good = good && separator;
                self.trivia();
                let second = self.parse_successor();
                good = good && second;
                self.trivia();
                self.complete(list, SyntaxKind::SuccessorList, !good, Ghost(with_marker));
                if self.at(TokenKind::LBrace) {
                    self.attribute_dict();
                }
                self.complete(marker, kind, !good, Ghost(outer));
            },
            AssemblyProgram::TypedAttribute => {
                self.parse_zero_operand_constant(marker, kind, Ghost(outer));
            },
            AssemblyProgram::BinaryOperands => {
                let mut good = self.expect(TokenKind::BareIdentifier);
                self.trivia();
                let first = self.operand_use_or_report();
                good = good && first;
                self.trivia();
                let comma = self.expect(TokenKind::Comma);
                good = good && comma;
                self.trivia();
                let second = self.operand_use_or_report();
                good = good && second;
                self.trivia();
                if self.at(TokenKind::BareIdentifier) {
                    if self.current_is(&[0x6fu8, 0x76, 0x65, 0x72, 0x66, 0x6c, 0x6f, 0x77]) {
                        let flags = self.parse_overflow_flags();
                        good = good && flags;
                        self.trivia();
                    } else {
                        self.diagnostic();
                        good = false;
                        self.bump();
                    }
                } else if !self.at(TokenKind::LBrace) && !self.at(TokenKind::Colon) && !self.at(
                    TokenKind::Eof,
                ) {
                    self.diagnostic();
                    good = false;
                    self.bump();
                } else if !self.at(TokenKind::LBrace) && !self.at(TokenKind::Colon) {
                    self.diagnostic();
                    good = false;
                }
                if self.at(TokenKind::LBrace) {
                    self.attribute_dict();
                    self.trivia();
                }
                let colon = self.expect(TokenKind::Colon);
                good = good && colon;
                self.trivia();
                let ty = self.type_syntax(0);
                good = good && ty;
                self.complete(marker, kind, !good, Ghost(outer));
            },
            AssemblyProgram::OptionalTypedOperands => {
                let mut good = self.expect(TokenKind::BareIdentifier);
                self.trivia();
                let start = self.position;
                let mut operand_count: usize = 0;
                let ghost diagnostics = self.diagnostics@;
                let ghost operands = return_operands(self.tokens@, start as int, 0);
                while self.at(TokenKind::PercentIdentifier)
                    invariant_except_break
                        return_operands(self.tokens@, self.position as int, operand_count as nat)
                            == operands,
                    invariant
                        self.wf(),
                        old(self).keeps(*self),
                        with_marker == outer.push(marker as int),
                        old(self).builder.spec_open() == with_marker,
                        marker < old(self).builder.spec_len(),
                        self.nesting_depth == old(self).nesting_depth,
                        self.position > old(self).position,
                        start <= self.position,
                        operand_count <= self.position - start,
                        self.diagnostics@ == diagnostics,
                    ensures
                        self.wf(),
                        old(self).keeps(*self),
                        old(self).builder.spec_open() == with_marker,
                        marker < old(self).builder.spec_len(),
                        self.nesting_depth == old(self).nesting_depth,
                        self.position > old(self).position,
                        self.diagnostics@ == diagnostics,
                        operands == (self.position as int, operand_count as nat),
                    decreases self.tokens@.len() - self.position,
                {
                    let ghost p = self.position as int;
                    let ghost c = operand_count as nat;
                    let ghost toks = self.tokens@;
                    self.operand_use();
                    operand_count = operand_count + 1;
                    self.trivia();
                    let ghost q = self.position as int;
                    assert(q == skip_trivia_at(toks, p + 1));
                    if !self.at(TokenKind::Comma) {
                        assert(!kind_is(toks, q, TokenKind::Comma));
                        assert(return_operands(toks, p, c) == (q, c + 1));
                        break;
                    }
                    assert(kind_is(toks, q, TokenKind::Comma));
                    self.bump();
                    self.trivia();
                    assert(return_operands(toks, p, c) == return_operands(
                        toks,
                        self.position as int,
                        c + 1,
                    ));
                }
                if self.at(TokenKind::LBrace) {
                    self.attribute_dict();
                    self.trivia();
                }
                if self.at(TokenKind::Colon) {
                    self.bump();
                    self.trivia();
                    let type_count = self.parse_return_type_list();
                    if type_count != operand_count {
                        self.diagnostic();
                        good = false;
                    }
                } else if operand_count != 0 {
                    self.diagnostic();
                    good = false;
                }
                self.complete(marker, kind, !good, Ghost(outer));
            },
            AssemblyProgram::TypedSuccessor => {
                let mut good = self.expect(TokenKind::BareIdentifier);
                self.trivia();
                let list = self.start();
                let ghost with_list = self.builder.spec_open();
                let successor = self.start();
                let label = self.expect(TokenKind::CaretIdentifier);
                good = good && label;
                self.trivia();
                if self.at(TokenKind::LParen) {
                    let arguments = self.block_argument_list(SyntaxKind::SuccessorArguments);
                    good = good && arguments;
                    self.trivia();
                }
                self.complete(successor, SyntaxKind::Successor, !good, Ghost(with_list));
                self.complete(list, SyntaxKind::SuccessorList, !good, Ghost(with_marker));
                if self.at(TokenKind::LBrace) {
                    self.attribute_dict();
                }
                self.complete(marker, kind, !good, Ghost(outer));
            },
        }
    }

    /// `%value`: an operand and its use.
    fn operand_use(&mut self)
        requires
            old(self).wf(),
            old(self).cur() == TokenKind::PercentIdentifier,
        ensures
            final(self).wf(),
            old(self).keeps(*final(self)),
            final(self).position == old(self).position + 1,
            final(self).builder.spec_nodes() == with_operand(
                old(self).builder.spec_nodes(),
                old(self).position as int,
                old(self).position + 1,
                false,
            ),
            final(self).diagnostics@ == old(self).diagnostics@,
    {
        let ghost outer = self.builder.spec_open();
        let operand = self.start();
        let ghost inner = self.builder.spec_open();
        let use_marker = self.start();
        self.bump();
        self.complete(use_marker, SyntaxKind::OperandUse, false, Ghost(inner));
        self.complete(operand, SyntaxKind::Operand, false, Ghost(outer));
    }

    /// An operand when one is here; a diagnostic otherwise.
    fn operand_use_or_report(&mut self) -> (r: bool)
        requires
            old(self).wf(),
        ensures
            final(self).wf(),
            old(self).keeps(*final(self)),
            r == (old(self).cur() == TokenKind::PercentIdentifier),
            r ==> final(self).position == old(self).position + 1 && final(self).builder.spec_nodes()
                == with_operand(old(self).builder.spec_nodes(), old(self).position as int, old(self).position + 1, false)
                && final(self).diagnostics@ == old(self).diagnostics@,
            !r ==> final(self).position == old(self).position && final(self).builder.spec_nodes()
                == old(self).builder.spec_nodes() && reported(
                old(self).diagnostics@,
                final(self).diagnostics@,
                old(self).tokens@[old(self).position as int],
                ParseDiagnosticKind::Syntax,
            ),
    {
        if self.at(TokenKind::PercentIdentifier) {
            self.operand_use();
            true
        } else {
            self.diagnostic();
            false
        }
    }

    /// `%value`, reported when it is missing.
    fn parse_operand(&mut self) -> (r: bool)
        requires
            old(self).wf(),
        ensures
            final(self).wf(),
            old(self).keeps(*final(self)),
            r == (old(self).cur() == TokenKind::PercentIdentifier),
            final(self).position == old(self).position + if r {
                1int
            } else {
                0int
            },
            final(self).builder.spec_nodes() == with_operand(
                old(self).builder.spec_nodes(),
                old(self).position as int,
                final(self).position as int,
                !r,
            ),
            r ==> final(self).diagnostics@ == old(self).diagnostics@,
            !r ==> reported(
                old(self).diagnostics@,
                final(self).diagnostics@,
                old(self).tokens@[old(self).position as int],
                ParseDiagnosticKind::Syntax,
            ),
    {
        let ghost outer = self.builder.spec_open();
        let operand = self.start();
        let ghost inner = self.builder.spec_open();
        let use_marker = self.start();
        let good = self.expect(TokenKind::PercentIdentifier);
        self.complete(use_marker, SyntaxKind::OperandUse, !good, Ghost(inner));
        self.complete(operand, SyntaxKind::Operand, !good, Ghost(outer));
        good
    }

    /// `^bb1(%a : i32)`: a successor and its arguments.
    fn parse_successor(&mut self) -> (r: bool)
        requires
            old(self).wf(),
        ensures
            final(self).wf(),
            old(self).keeps(*final(self)),
        decreases old(self).rem(), 10int,
    {
        let ghost outer = self.builder.spec_open();
        let successor = self.start();
        let mut good = self.expect(TokenKind::CaretIdentifier);
        self.trivia();
        if self.at(TokenKind::LParen) {
            let arguments = self.block_argument_list(SyntaxKind::SuccessorArguments);
            good = good && arguments;
        }
        self.complete(successor, SyntaxKind::Successor, !good, Ghost(outer));
        good
    }

    /// `name value {attrs} : type`: a constant with no operand, as a node of
    /// `kind` under `marker`.
    fn parse_zero_operand_constant(&mut self, marker: usize, kind: SyntaxKind, Ghost(outer): Ghost<Seq<int>>)
        requires
            old(self).wf(),
            old(self).builder.spec_open() == outer.push(marker as int),
            marker < old(self).builder.spec_len(),
            old(self).cur() == TokenKind::BareIdentifier,
        ensures
            diagnostics_kept(old(self).diagnostics@, final(self).diagnostics@),
            final(self).registry == old(self).registry,
            final(self).wf(),
            final(self).builder.spec_open() == outer,
            old(self).builder.spec_len() <= final(self).builder.spec_len(),
            forall|i: int|
                0 <= i < old(self).builder.spec_len() && i != marker ==> #[trigger] final(
                self).builder.spec_nodes()[i] == old(self).builder.spec_nodes()[i],
            final(self).tokens@ == old(self).tokens@,
            final(self).source@ == old(self).source@,
            final(self).limits == old(self).limits,
            final(self).nesting_depth == old(self).nesting_depth,
            final(self).position > old(self).position,
            final(self).builder.spec_first(marker as int) == old(self).builder.spec_first(marker as int),
            final(self).builder.spec_end(marker as int) == final(self).builder.spec_len(),
        decreases old(self).rem(), 17int,
    {
        let ghost with_marker = outer.push(marker as int);
        let mut good = self.expect(TokenKind::BareIdentifier);
        self.trivia();
        let value = self.start();
        let attribute = self.constant_value();
        good = good && attribute;
        self.complete(value, SyntaxKind::ArithConstantValue, !good, Ghost(with_marker));
        self.trivia();
        if self.at(TokenKind::LBrace) {
            self.attribute_dict();
            self.trivia();
        }
        let colon = self.expect(TokenKind::Colon);
        good = good && colon;
        self.trivia();
        let ty = self.type_syntax(0);
        good = good && ty;
        self.complete(marker, kind, !good, Ghost(outer));
    }

    /// A quoted string, a number without a type, or any attribute value.
    fn constant_value(&mut self) -> (r: bool)
        requires
            old(self).wf(),
        ensures
            final(self).wf(),
            old(self).keeps(*final(self)),
        decreases old(self).rem(), 17int,
    {
        if self.at(TokenKind::String) {
            return self.leaf(SyntaxKind::StringAttribute);
        }
        if self.at_numeric_start() {
            let ghost outer = self.builder.spec_open();
            let marker = self.start();
            if self.at(TokenKind::Plus) || self.at(TokenKind::Minus) {
                self.bump();
            }
            let kind = match self.current() {
                TokenKind::Integer => SyntaxKind::IntegerAttribute,
                TokenKind::WideInteger => SyntaxKind::WideNumber,
                TokenKind::Float => SyntaxKind::FloatAttribute,
                _ => {
                    self.diagnostic();
                    self.complete(marker, SyntaxKind::IntegerAttribute, true, Ghost(outer));
                    return false;
                },
            };
            self.bump();
            self.complete(marker, kind, false, Ghost(outer));
            true
        } else {
            self.attribute_value()
        }
    }

    /// `overflow<nsw, nuw>`: at most two distinct flags, or `none` alone.
    fn parse_overflow_flags(&mut self) -> (r: bool)
        requires
            old(self).wf(),
        ensures
            final(self).wf(),
            old(self).keeps(*final(self)),
            final(self).builder.spec_nodes() == old(self).builder.spec_nodes(),
            ({
                let (c, good) = read_overflow_flags(
                    old(self).tokens@,
                    old(self).source@,
                    reading_at(old(self).position as int),
                );
                &&& final(self).position == c.pos
                &&& added_as(old(self).diagnostics@, final(self).diagnostics@, old(self).tokens@, c.added)
                &&& r == good
            }),
    {
        let ghost toks = self.tokens@;
        let ghost src = self.source@;
        let ghost d0 = self.diagnostics@;
        let ghost mut added: Seq<(int, ParseDiagnosticKind)> = seq![];
        proof {
            assert(d0.subrange(0, d0.len() as int) =~= d0);
        }
        let ghost dm = self.diagnostics@;
        let ghost at = self.position as int;
        let mut good = self.expect(TokenKind::BareIdentifier);
        proof {
            if !good {
                lemma_added_report(d0, dm, self.diagnostics@, toks, added, at, ParseDiagnosticKind::Syntax);
                added = added.push((at, ParseDiagnosticKind::Syntax));
            }
        }
        self.trivia();
        let ghost dm = self.diagnostics@;
        let ghost at = self.position as int;
        let less = self.expect(TokenKind::Less);
        proof {
            if !less {
                lemma_added_report(d0, dm, self.diagnostics@, toks, added, at, ParseDiagnosticKind::Syntax);
                added = added.push((at, ParseDiagnosticKind::Syntax));
            }
        }
        good = good && less;
        self.trivia();
        let mut seen_nsw = false;
        let mut seen_nuw = false;
        let mut seen_none = false;
        let mut count: usize = 0;
        let start = self.position;
        let ghost goal = read_flags(
            toks,
            src,
            FlagScan {
                c: Reading { pos: self.position as int, added },
                nsw: false,
                nuw: false,
                none: false,
                count: 0,
                good,
            },
        );
        loop
            invariant_except_break
                read_flags(
                    toks,
                    src,
                    FlagScan {
                        c: Reading { pos: self.position as int, added },
                        nsw: seen_nsw,
                        nuw: seen_nuw,
                        none: seen_none,
                        count: count as int,
                        good,
                    },
                ) == goal,
            invariant
                self.wf(),
                old(self).keeps(*self),
                toks == self.tokens@,
                src == self.source@,
                d0 == old(self).diagnostics@,
                self.builder.spec_nodes() == old(self).builder.spec_nodes(),
                added_as(d0, self.diagnostics@, toks, added),
                start <= self.position,
                count <= self.position - start,
            ensures
                self.wf(),
                old(self).keeps(*self),
                toks == self.tokens@,
                self.builder.spec_nodes() == old(self).builder.spec_nodes(),
                added_as(d0, self.diagnostics@, toks, added),
                (FlagScan {
                    c: Reading { pos: self.position as int, added },
                    nsw: seen_nsw,
                    nuw: seen_nuw,
                    none: seen_none,
                    count: count as int,
                    good,
                }) == goal,
            decreases self.tokens@.len() - self.position,
        {
            if !self.at(TokenKind::BareIdentifier) {
                good = false;
                let ghost dm = self.diagnostics@;
                let ghost at = self.position as int;
                self.diagnostic();
                proof {
                    lemma_added_report(d0, dm, self.diagnostics@, toks, added, at, ParseDiagnosticKind::Syntax);
                    added = added.push((at, ParseDiagnosticKind::Syntax));
                }
                break;
            }
            let is_nsw = self.current_is(&[0x6eu8, 0x73, 0x77]);
            let is_nuw = self.current_is(&[0x6eu8, 0x75, 0x77]);
            let is_none = self.current_is(&[0x6eu8, 0x6f, 0x6e, 0x65]);
            proof {
                assert(is_nsw == (spelling(toks, src, self.position as int) == Some(nsw_word())));
                assert(is_nuw == (spelling(toks, src, self.position as int) == Some(nuw_word())));
                assert(is_none == (spelling(toks, src, self.position as int) == Some(none_word())));
            }
            let duplicate = if is_nsw {
                let seen = seen_nsw;
                seen_nsw = true;
                seen
            } else if is_nuw {
                let seen = seen_nuw;
                seen_nuw = true;
                seen
            } else if is_none {
                let seen = seen_none;
                seen_none = true;
                seen
            } else {
                true
            };
            if duplicate || (is_none && count != 0) || (!is_none && seen_none) {
                good = false;
                let ghost dm = self.diagnostics@;
                let ghost at = self.position as int;
                self.diagnostic();
                proof {
                    lemma_added_report(d0, dm, self.diagnostics@, toks, added, at, ParseDiagnosticKind::Syntax);
                    added = added.push((at, ParseDiagnosticKind::Syntax));
                }
            }
            self.bump();
            self.trivia();
            count = count + 1;
            if count > 2 {
                good = false;
                let ghost dm = self.diagnostics@;
                let ghost at = self.position as int;
                self.diagnostic();
                proof {
                    lemma_added_report(d0, dm, self.diagnostics@, toks, added, at, ParseDiagnosticKind::Syntax);
                    added = added.push((at, ParseDiagnosticKind::Syntax));
                }
            }
            if !self.at(TokenKind::Comma) {
                break;
            }
            self.bump();
            self.trivia();
        }
        if count == 0 {
            good = false;
        }
        let ghost dm = self.diagnostics@;
        let ghost at = self.position as int;
        let closed = self.expect(TokenKind::Greater);
        proof {
            if !closed {
                lemma_added_report(d0, dm, self.diagnostics@, toks, added, at, ParseDiagnosticKind::Syntax);
                added = added.push((at, ParseDiagnosticKind::Syntax));
            }
        }
        good = good && closed;
        good
    }

    /// `(t1, t2)` or `t`: result types, and how many of them are well formed.
    fn parse_return_type_list(&mut self) -> (r: usize)
        requires
            old(self).wf(),
        ensures
            final(self).wf(),
            old(self).keeps(*final(self)),
        decreases old(self).rem(), 14int,
    {
        if self.at(TokenKind::LParen) {
            self.bump();
            self.trivia();
            let start = self.position;
            let mut count: usize = 0;
            while self.at_type_start()
                invariant
                    self.wf(),
                    old(self).keeps(*self),
                    self.position > old(self).position,
                    start <= self.position,
                    count <= self.position - start,
                decreases self.tokens@.len() - self.position,
            {
                let good = self.type_syntax(0);
                count = count + count_of(good);
                self.trivia();
                if !self.at(TokenKind::Comma) {
                    break;
                }
                self.bump();
                self.trivia();
            }
            self.expect(TokenKind::RParen);
            count
        } else {
            let good = self.type_syntax(0);
            count_of(good)
        }
    }
}

/// Whether two byte strings are equal.
fn bytes_equal(a: &[u8], b: &[u8]) -> (r: bool)
    ensures
        r == (a@ == b@),
{
    if a.len() != b.len() {
        return false;
    }
    let mut i: usize = 0;
    while i < a.len()
        invariant
            a@.len() == b@.len(),
            i <= a@.len(),
            forall|k: int| 0 <= k < i ==> a@[k] == b@[k],
        decreases a@.len() - i,
    {
        if a[i] != b[i] {
            return false;
        }
        i = i + 1;
    }
    assert(a@ =~= b@);
    true
}

/// Whether `bytes` holds `b`.
fn bytes_contain(bytes: &[u8], b: u8) -> (r: bool)
    ensures
        r == bytes@.contains(b),
{
    let mut i: usize = 0;
    while i < bytes.len()
        invariant
            i <= bytes@.len(),
            forall|k: int| 0 <= k < i ==> bytes@[k] != b,
        decreases bytes@.len() - i,
    {
        if bytes[i] == b {
            return true;
        }
        i = i + 1;
    }
    false
}

} // verus!
