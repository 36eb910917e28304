//! Lossless tokenization for textual MLIR.
//!
//! [`lex`] and [`lex_with_limits`] retain every source byte through token ranges.
//! Malformed input produces [`Diagnostic`] values instead of stopping the scan.

use vstd::prelude::*;
use crate::source::{Source, TextRange};

verus! {

#[derive(Clone, Copy, Debug, PartialEq, Eq, Structural)]
pub enum TokenKind {
    Whitespace,
    LineComment,
    String,
    BareIdentifier,
    AtIdentifier,
    PercentIdentifier,
    CaretIdentifier,
    ExclamationIdentifier,
    HashIdentifier,
    Dense,
    Sparse,
    DenseResource,
    Integer,
    WideInteger,
    Float,
    IntType,
    FloatType,
    IndexType,
    Loc,
    Unknown,
    CallSite,
    Fused,
    Tuple,
    Tensor,
    Vector,
    MemRef,
    AffineMap,
    AffineSet,
    Mod,
    FloorDiv,
    CeilDiv,
    Strided,
    X,
    LParen,
    RParen,
    LBrace,
    RBrace,
    LBracket,
    RBracket,
    Less,
    Greater,
    Colon,
    Comma,
    Equal,
    Plus,
    Star,
    Question,
    VerticalBar,
    Minus,
    Slash,
    Arrow,
    Ellipsis,
    FileMetadataBegin,
    FileMetadataEnd,
    Invalid,
    Eof,
}

#[derive(Clone, Copy, Debug, PartialEq, Eq, Structural)]
pub struct Token {
    kind: TokenKind,
    range: TextRange,
}

impl Token {
    pub closed spec fn spec_kind(self) -> TokenKind {
        self.kind
    }

    pub closed spec fn spec_range(self) -> TextRange {
        self.range
    }

    /// The first byte of the token.
    pub open spec fn spec_start(self) -> int {
        self.spec_range().spec_start() as int
    }

    /// One past the last byte of the token.
    pub open spec fn spec_end(self) -> int {
        self.spec_range().spec_end() as int
    }

    pub fn new(kind: TokenKind, range: TextRange) -> (r: Self)
        ensures
            r.spec_kind() == kind,
            r.spec_range() == range,
    {
        Self { kind, range }
    }

    pub fn kind(self) -> (r: TokenKind)
        ensures
            r == self.spec_kind(),
    {
        self.kind
    }

    pub fn range(self) -> (r: TextRange)
        ensures
            r == self.spec_range(),
    {
        self.range
    }
}

#[derive(Clone, Copy, Debug, PartialEq, Eq, Structural)]
pub enum DiagnosticKind {
    FileLimit,
    TokenLimit,
    InvalidByte,
    UnterminatedString,
    InvalidEscape,
    InvalidIdentifier,
}

#[derive(Clone, Copy, Debug, PartialEq, Eq, Structural)]
pub struct Diagnostic {
    kind: DiagnosticKind,
    range: TextRange,
}

impl Diagnostic {
    pub closed spec fn spec_kind(self) -> DiagnosticKind {
        self.kind
    }

    pub closed spec fn spec_range(self) -> TextRange {
        self.range
    }

    pub fn kind(&self) -> (r: DiagnosticKind)
        ensures
            r == self.spec_kind(),
    {
        self.kind
    }

    pub fn range(&self) -> (r: TextRange)
        ensures
            r == self.spec_range(),
    {
        self.range
    }
}

#[derive(Clone, Copy, Debug)]
pub struct LexerLimits {
    pub max_file_bytes: usize,
    pub max_tokens: usize,
}

impl LexerLimits {
    /// No file-size limit beyond what offsets can address, and no token limit.
    pub fn default() -> (r: Self)
        ensures
            r.max_file_bytes == u32::MAX as usize,
            r.max_tokens == usize::MAX,
    {
        Self { max_file_bytes: 0xffff_ffffusize, max_tokens: usize::MAX }
    }
}

#[derive(Debug)]
pub struct Lexed {
    tokens: Vec<Token>,
    diagnostics: Vec<Diagnostic>,
}

/// Tokens `toks` tile `[0, end)`: each is non-empty, not `Eof`, and starts
/// where the previous one ended.
pub open spec fn tiles(toks: Seq<Token>, end: int) -> bool {
    &&& toks.len() == 0 ==> end == 0
    &&& toks.len() > 0 ==> toks[0].spec_start() == 0 && toks.last().spec_end() == end
    &&& forall|i: int| 0 <= i < toks.len() ==> #[trigger] toks[i].spec_start() < toks[i].spec_end()
    &&& forall|i: int| 0 <= i < toks.len() ==> #[trigger] toks[i].spec_kind() != TokenKind::Eof
    &&& forall|i: int| 0 <= i < toks.len() - 1 ==> #[trigger] toks[i].spec_end() == toks[i + 1].spec_start()
}

/// A token tape ends with an `Eof` token, its only one.
pub open spec fn eof_terminated(toks: Seq<Token>) -> bool {
    &&& toks.len() >= 1
    &&& toks.last().spec_kind() == TokenKind::Eof
    &&& forall|i: int| 0 <= i < toks.len() - 1 ==> #[trigger] toks[i].spec_kind() != TokenKind::Eof
}

/// Tokens that tile a range come in order: each ends no later than the next
/// starts.
pub proof fn lemma_tiles_ordered(toks: Seq<Token>, end: int)
    requires
        tiles(toks, end),
    ensures
        forall|i: int, j: int| 0 <= i < j < toks.len() ==> #[trigger] toks[i].spec_end() <= #[trigger] toks[j].spec_start(),
{
    assert forall|i: int, j: int| 0 <= i < j < toks.len() implies #[trigger] toks[i].spec_end()
        <= #[trigger] toks[j].spec_start() by {
        lemma_tiles_ordered_from(toks, end, i, j);
    }
}

proof fn lemma_tiles_ordered_from(toks: Seq<Token>, end: int, i: int, j: int)
    requires
        tiles(toks, end),
        0 <= i < j < toks.len(),
    ensures
        toks[i].spec_end() <= toks[j].spec_start(),
    decreases j - i,
{
    if j > i + 1 {
        lemma_tiles_ordered_from(toks, end, i, j - 1);
        assert(toks[j - 1].spec_start() < toks[j - 1].spec_end());
    }
}

/// A token tape for `len` source bytes: real tokens tiling the input, then one
/// empty `Eof` token at the end.
pub open spec fn lossless(toks: Seq<Token>, len: int) -> bool {
    &&& toks.len() >= 1
    &&& toks.last().spec_kind() == TokenKind::Eof
    &&& toks.last().spec_start() == len
    &&& toks.last().spec_end() == len
    &&& tiles(toks.drop_last(), len)
}

/// The bytes that the non-`Eof` tokens of `toks` cover, in order.
pub open spec fn spec_reconstruct(toks: Seq<Token>, bytes: Seq<u8>) -> Seq<u8>
    decreases toks.len(),
{
    if toks.len() == 0 {
        seq![]
    } else {
        let last = toks.last();
        spec_reconstruct(toks.drop_last(), bytes) + if last.spec_kind() == TokenKind::Eof {
            Seq::<u8>::empty()
        } else {
            bytes.subrange(last.spec_start(), last.spec_end())
        }
    }
}

proof fn lemma_tiles_reconstruct(toks: Seq<Token>, bytes: Seq<u8>, end: int)
    requires
        tiles(toks, end),
        end <= bytes.len(),
    ensures
        spec_reconstruct(toks, bytes) == bytes.subrange(0, end),
    decreases toks.len(),
{
    if toks.len() == 0 {
        assert(bytes.subrange(0, 0) =~= Seq::<u8>::empty());
    } else {
        let prefix = toks.drop_last();
        let last = toks.last();
        assert(last.spec_start() < last.spec_end());
        if toks.len() > 1 {
            assert(toks[toks.len() - 2].spec_end() == toks[toks.len() - 1].spec_start());
            assert(prefix.last() == toks[toks.len() - 2]);
        }
        assert forall|i: int| 0 <= i < prefix.len() - 1 implies #[trigger] prefix[i].spec_end()
            == prefix[i + 1].spec_start() by {
            assert(prefix[i] == toks[i]);
            assert(prefix[i + 1] == toks[i + 1]);
        }
        assert(tiles(prefix, last.spec_start()));
        lemma_tiles_reconstruct(prefix, bytes, last.spec_start());
        assert(bytes.subrange(0, last.spec_start()) + bytes.subrange(last.spec_start(), end)
            =~= bytes.subrange(0, end));
    }
}

/// Reconstructing a lossless token tape gives back exactly the source bytes.
pub proof fn lemma_lossless_reconstruct(toks: Seq<Token>, bytes: Seq<u8>)
    requires
        lossless(toks, bytes.len() as int),
    ensures
        spec_reconstruct(toks, bytes) == bytes,
{
    lemma_tiles_reconstruct(toks.drop_last(), bytes, bytes.len() as int);
    assert(bytes.subrange(0, bytes.len() as int) =~= bytes);
    assert(spec_reconstruct(toks, bytes) =~= spec_reconstruct(toks.drop_last(), bytes));
}

impl Lexed {
    pub closed spec fn spec_tokens(&self) -> Seq<Token> {
        self.tokens@
    }

    /// The tape always ends with its only `Eof` token.
    #[verifier::type_invariant]
    closed spec fn ends_with_eof(&self) -> bool {
        eof_terminated(self.tokens@)
    }

    pub closed spec fn spec_diagnostics(&self) -> Seq<Diagnostic> {
        self.diagnostics@
    }

    pub fn tokens(&self) -> (r: &[Token])
        ensures
            r@ == self.spec_tokens(),
            eof_terminated(r@),
    {
        proof {
            use_type_invariant(self);
        }
        self.tokens.as_slice()
    }

    pub fn diagnostics(&self) -> (r: &[Diagnostic])
        ensures
            r@ == self.spec_diagnostics(),
    {
        self.diagnostics.as_slice()
    }

    /// Concatenates the source bytes of every non-`Eof` token, in order.
    pub fn reconstruct(&self, source: &Source) -> (r: Vec<u8>)
        requires
            forall|i: int|
                0 <= i < self.spec_tokens().len() ==> #[trigger] self.spec_tokens()[i].spec_end()
                    <= source.spec_bytes().len(),
        ensures
            r@ == spec_reconstruct(self.spec_tokens(), source.spec_bytes()),
    {
        let bytes = source.bytes();
        let mut result: Vec<u8> = Vec::new();
        let mut index: usize = 0;
        proof {
            assert forall|i: int| 0 <= i < self.tokens@.len() implies #[trigger] self.tokens@[i].spec_end()
                <= bytes@.len() by {
                assert(self.spec_tokens()[i].spec_end() <= source.spec_bytes().len());
            }
            assert(self.tokens@.take(0) =~= Seq::<Token>::empty());
        }
        while index < self.tokens.len()
            invariant
                index <= self.tokens@.len(),
                bytes@ == source.spec_bytes(),
                forall|i: int|
                    0 <= i < self.tokens@.len() ==> #[trigger] self.tokens@[i].spec_end()
                        <= bytes@.len(),
                result@ == spec_reconstruct(self.tokens@.take(index as int), bytes@),
            decreases self.tokens@.len() - index,
        {
            let token = self.tokens[index];
            let start = token.range().start() as usize;
            let end = token.range().end() as usize;
            proof {
                assert(self.tokens@[index as int].spec_end() <= bytes@.len());
            }
            if token.kind() != TokenKind::Eof {
                let mut cursor = start;
                proof {
                    assert(bytes@.subrange(start as int, start as int) =~= Seq::<u8>::empty());
                    assert(result@ =~= result@ + Seq::<u8>::empty());
                }
                while cursor < end
                    invariant
                        start <= cursor <= end,
                        end <= bytes@.len(),
                        result@ == spec_reconstruct(self.tokens@.take(index as int), bytes@)
                            + bytes@.subrange(start as int, cursor as int),
                    decreases end - cursor,
                {
                    result.push(bytes[cursor]);
                    cursor = cursor + 1;
                    assert(bytes@.subrange(start as int, cursor as int) =~= bytes@.subrange(
                        start as int,
                        cursor - 1,
                    ).push(bytes@[cursor - 1]));
                }
            }
            proof {
                let next = self.tokens@.take(index + 1);
                assert(next.drop_last() =~= self.tokens@.take(index as int));
                assert(next.last() == token);
            }
            index = index + 1;
        }
        proof {
            assert(self.tokens@.take(index as int) =~= self.tokens@);
        }
        result
    }
}

// ---------------------------------------------------------------------------
// Byte classes.

pub open spec fn spec_is_whitespace(b: u8) -> bool {
    b == 0x20 || b == 0x09 || b == 0x0a || b == 0x0c || b == 0x0d
}

pub open spec fn spec_is_digit(b: u8) -> bool {
    0x30 <= b <= 0x39
}

pub open spec fn spec_is_hex_digit(b: u8) -> bool {
    spec_is_digit(b) || (0x41 <= b <= 0x46) || (0x61 <= b <= 0x66)
}

pub open spec fn spec_is_alpha(b: u8) -> bool {
    (0x41 <= b <= 0x5a) || (0x61 <= b <= 0x7a)
}

pub open spec fn spec_is_alnum(b: u8) -> bool {
    spec_is_alpha(b) || spec_is_digit(b)
}

pub open spec fn spec_is_bare_start(b: u8) -> bool {
    spec_is_alpha(b) || b == 0x5f
}

pub open spec fn spec_is_bare_continue(b: u8) -> bool {
    spec_is_alnum(b) || b == 0x5f || b == 0x24 || b == 0x2e
}

pub open spec fn spec_is_suffix_start(b: u8) -> bool {
    spec_is_alpha(b) || b == 0x5f || b == 0x24 || b == 0x2e || b == 0x2d
}

pub open spec fn spec_is_suffix_continue(b: u8) -> bool {
    spec_is_alnum(b) || b == 0x5f || b == 0x24 || b == 0x2e || b == 0x2d
}

pub(crate) fn is_whitespace(b: u8) -> (r: bool)
    ensures
        r == spec_is_whitespace(b),
{
    b == 0x20 || b == 0x09 || b == 0x0a || b == 0x0c || b == 0x0d
}

pub(crate) fn is_digit(b: u8) -> (r: bool)
    ensures
        r == spec_is_digit(b),
{
    0x30 <= b && b <= 0x39
}

pub(crate) fn is_hex_digit(b: u8) -> (r: bool)
    ensures
        r == spec_is_hex_digit(b),
{
    is_digit(b) || (0x41 <= b && b <= 0x46) || (0x61 <= b && b <= 0x66)
}

pub(crate) fn is_alpha(b: u8) -> (r: bool)
    ensures
        r == spec_is_alpha(b),
{
    (0x41 <= b && b <= 0x5a) || (0x61 <= b && b <= 0x7a)
}

pub(crate) fn is_alnum(b: u8) -> (r: bool)
    ensures
        r == spec_is_alnum(b),
{
    is_alpha(b) || is_digit(b)
}

fn is_bare_start(b: u8) -> (r: bool)
    ensures
        r == spec_is_bare_start(b),
{
    is_alpha(b) || b == 0x5f
}

fn is_bare_continue(b: u8) -> (r: bool)
    ensures
        r == spec_is_bare_continue(b),
{
    is_alnum(b) || b == 0x5f || b == 0x24 || b == 0x2e
}

fn is_suffix_start(b: u8) -> (r: bool)
    ensures
        r == spec_is_suffix_start(b),
{
    is_alpha(b) || b == 0x5f || b == 0x24 || b == 0x2e || b == 0x2d
}

fn is_suffix_continue(b: u8) -> (r: bool)
    ensures
        r == spec_is_suffix_continue(b),
{
    is_alnum(b) || b == 0x5f || b == 0x24 || b == 0x2e || b == 0x2d
}

/// The byte classes that the scanner consumes in runs.
#[derive(Clone, Copy, PartialEq, Eq, Structural)]
pub enum ByteClass {
    Whitespace,
    NotNewline,
    Digit,
    HexDigit,
    BareContinue,
    SuffixContinue,
}

pub open spec fn class_holds(class: ByteClass, b: u8) -> bool {
    match class {
        ByteClass::Whitespace => spec_is_whitespace(b),
        ByteClass::NotNewline => b != 0x0a && b != 0x0d,
        ByteClass::Digit => spec_is_digit(b),
        ByteClass::HexDigit => spec_is_hex_digit(b),
        ByteClass::BareContinue => spec_is_bare_continue(b),
        ByteClass::SuffixContinue => spec_is_suffix_continue(b),
    }
}

fn class_test(class: ByteClass, b: u8) -> (r: bool)
    ensures
        r == class_holds(class, b),
{
    match class {
        ByteClass::Whitespace => is_whitespace(b),
        ByteClass::NotNewline => b != 0x0a && b != 0x0d,
        ByteClass::Digit => is_digit(b),
        ByteClass::HexDigit => is_hex_digit(b),
        ByteClass::BareContinue => is_bare_continue(b),
        ByteClass::SuffixContinue => is_suffix_continue(b),
    }
}

/// Whether `bytes[start..end]` spells exactly `word`.
pub(crate) fn word_is(bytes: &[u8], start: usize, end: usize, word: &[u8]) -> (r: bool)
    requires
        start <= end <= bytes@.len(),
    ensures
        r == (bytes@.subrange(start as int, end as int) == word@),
{
    if end - start != word.len() {
        proof {
            assert(bytes@.subrange(start as int, end as int).len() != word@.len());
        }
        return false;
    }
    let mut i: usize = 0;
    while i < word.len()
        invariant
            start <= end <= bytes@.len(),
            end - start == word@.len(),
            i <= word@.len(),
            forall|j: int| 0 <= j < i ==> bytes@[start + j] == word@[j],
        decreases word@.len() - i,
    {
        if bytes[start + i] != word[i] {
            proof {
                assert(bytes@.subrange(start as int, end as int)[i as int] != word@[i as int]);
            }
            return false;
        }
        i = i + 1;
    }
    proof {
        assert(bytes@.subrange(start as int, end as int) =~= word@);
    }
    true
}

pub open spec fn all_digits(s: Seq<u8>) -> bool {
    forall|i: int| 0 <= i < s.len() ==> spec_is_digit(#[trigger] s[i])
}

/// `iN`, `siN` or `uiN` with a non-empty decimal width.
pub open spec fn spec_is_integer_type(s: Seq<u8>) -> bool {
    ||| (s.len() > 1 && s[0] == 0x69 && all_digits(s.skip(1)))
    ||| (s.len() > 2 && (s[0] == 0x73 || s[0] == 0x75) && s[1] == 0x69 && all_digits(s.skip(2)))
}

fn all_digits_in(bytes: &[u8], start: usize, end: usize) -> (r: bool)
    requires
        start <= end <= bytes@.len(),
    ensures
        r == all_digits(bytes@.subrange(start as int, end as int)),
{
    let mut i = start;
    while i < end
        invariant
            start <= i <= end <= bytes@.len(),
            forall|j: int| start <= j < i ==> spec_is_digit(bytes@[j]),
        decreases end - i,
    {
        if !is_digit(bytes[i]) {
            proof {
                assert(bytes@.subrange(start as int, end as int)[i - start] == bytes@[i as int]);
            }
            return false;
        }
        i = i + 1;
    }
    proof {
        assert forall|k: int| 0 <= k < end - start implies spec_is_digit(
            #[trigger] bytes@.subrange(start as int, end as int)[k],
        ) by {
            assert(bytes@.subrange(start as int, end as int)[k] == bytes@[start + k]);
        }
    }
    true
}

fn is_integer_type(bytes: &[u8], start: usize, end: usize) -> (r: bool)
    requires
        start <= end <= bytes@.len(),
    ensures
        r == spec_is_integer_type(bytes@.subrange(start as int, end as int)),
{
    let ghost s = bytes@.subrange(start as int, end as int);
    if end - start > 1 && bytes[start] == 0x69 {
        proof {
            assert(s.skip(1) =~= bytes@.subrange(start + 1, end as int));
        }
        let r = all_digits_in(bytes, start + 1, end);
        proof {
            if !r && s.len() > 2 && (s[0] == 0x73 || s[0] == 0x75) {
                assert(false);
            }
        }
        r
    } else if end - start > 2 && (bytes[start] == 0x73 || bytes[start] == 0x75) && bytes[start
        + 1] == 0x69 {
        proof {
            assert(s.skip(2) =~= bytes@.subrange(start + 2, end as int));
        }
        all_digits_in(bytes, start + 2, end)
    } else {
        false
    }
}

/// The spellings of the builtin floating-point types.
pub open spec fn spec_is_float_type(s: Seq<u8>) -> bool {
    ||| s == seq![0x62u8, 0x66u8, 0x31u8, 0x36u8]
    ||| s == seq![0x66u8, 0x31u8, 0x36u8]
    ||| s == seq![0x66u8, 0x33u8, 0x32u8]
    ||| s == seq![0x66u8, 0x36u8, 0x34u8]
    ||| s == seq![0x66u8, 0x38u8, 0x30u8]
    ||| s == seq![0x66u8, 0x31u8, 0x32u8, 0x38u8]
    ||| s == seq![0x74u8, 0x66u8, 0x33u8, 0x32u8]
    ||| s == seq![0x66u8, 0x38u8, 0x45u8, 0x34u8, 0x4du8, 0x33u8]
    ||| s == seq![0x66u8, 0x38u8, 0x45u8, 0x35u8, 0x4du8, 0x32u8]
    ||| s == seq![0x66u8, 0x38u8, 0x45u8, 0x34u8, 0x4du8, 0x33u8, 0x46u8, 0x4eu8]
    ||| s == seq![0x66u8, 0x38u8, 0x45u8, 0x35u8, 0x4du8, 0x32u8, 0x46u8, 0x4eu8, 0x55u8, 0x5au8]
    ||| s == seq![0x66u8, 0x38u8, 0x45u8, 0x34u8, 0x4du8, 0x33u8, 0x46u8, 0x4eu8, 0x55u8, 0x5au8]
    ||| s == seq![0x66u8, 0x38u8, 0x45u8, 0x34u8, 0x4du8, 0x33u8, 0x42u8, 0x31u8, 0x31u8, 0x46u8, 0x4eu8, 0x55u8, 0x5au8]
    ||| s == seq![0x66u8, 0x38u8, 0x45u8, 0x33u8, 0x4du8, 0x34u8]
    ||| s == seq![0x66u8, 0x38u8, 0x45u8, 0x38u8, 0x4du8, 0x30u8, 0x46u8, 0x4eu8, 0x55u8]
    ||| s == seq![0x66u8, 0x34u8, 0x45u8, 0x32u8, 0x4du8, 0x31u8, 0x46u8, 0x4eu8]
    ||| s == seq![0x66u8, 0x36u8, 0x45u8, 0x32u8, 0x4du8, 0x33u8, 0x46u8, 0x4eu8]
    ||| s == seq![0x66u8, 0x36u8, 0x45u8, 0x33u8, 0x4du8, 0x32u8, 0x46u8, 0x4eu8]
}

fn is_float_type(bytes: &[u8], start: usize, end: usize) -> (r: bool)
    requires
        start <= end <= bytes@.len(),
    ensures
        r == spec_is_float_type(bytes@.subrange(start as int, end as int)),
{
    if word_is(bytes, start, end, &[0x62, 0x66, 0x31, 0x36]) {
        return true;
    }
    if word_is(bytes, start, end, &[0x66, 0x31, 0x36]) {
        return true;
    }
    if word_is(bytes, start, end, &[0x66, 0x33, 0x32]) {
        return true;
    }
    if word_is(bytes, start, end, &[0x66, 0x36, 0x34]) {
        return true;
    }
    if word_is(bytes, start, end, &[0x66, 0x38, 0x30]) {
        return true;
    }
    if word_is(bytes, start, end, &[0x66, 0x31, 0x32, 0x38]) {
        return true;
    }
    if word_is(bytes, start, end, &[0x74, 0x66, 0x33, 0x32]) {
        return true;
    }
    if word_is(bytes, start, end, &[0x66, 0x38, 0x45, 0x34, 0x4d, 0x33]) {
        return true;
    }
    if word_is(bytes, start, end, &[0x66, 0x38, 0x45, 0x35, 0x4d, 0x32]) {
        return true;
    }
    if word_is(bytes, start, end, &[0x66, 0x38, 0x45, 0x34, 0x4d, 0x33, 0x46, 0x4e]) {
        return true;
    }
    if word_is(bytes, start, end, &[0x66, 0x38, 0x45, 0x35, 0x4d, 0x32, 0x46, 0x4e, 0x55, 0x5a]) {
        return true;
    }
    if word_is(bytes, start, end, &[0x66, 0x38, 0x45, 0x34, 0x4d, 0x33, 0x46, 0x4e, 0x55, 0x5a]) {
        return true;
    }
    if word_is(bytes, start, end, &[0x66, 0x38, 0x45, 0x34, 0x4d, 0x33, 0x42, 0x31, 0x31, 0x46, 0x4e, 0x55, 0x5a]) {
        return true;
    }
    if word_is(bytes, start, end, &[0x66, 0x38, 0x45, 0x33, 0x4d, 0x34]) {
        return true;
    }
    if word_is(bytes, start, end, &[0x66, 0x38, 0x45, 0x38, 0x4d, 0x30, 0x46, 0x4e, 0x55]) {
        return true;
    }
    if word_is(bytes, start, end, &[0x66, 0x34, 0x45, 0x32, 0x4d, 0x31, 0x46, 0x4e]) {
        return true;
    }
    if word_is(bytes, start, end, &[0x66, 0x36, 0x45, 0x32, 0x4d, 0x33, 0x46, 0x4e]) {
        return true;
    }
    if word_is(bytes, start, end, &[0x66, 0x36, 0x45, 0x33, 0x4d, 0x32, 0x46, 0x4e]) {
        return true;
    }
    false
}


/// The token kind of a bare word: a keyword's own kind, else `BareIdentifier`.
pub open spec fn spec_keyword_kind(s: Seq<u8>) -> TokenKind {
    if s == seq![0x6cu8, 0x6fu8, 0x63u8] {
        TokenKind::Loc
    } else if s == seq![0x75u8, 0x6eu8, 0x6bu8, 0x6eu8, 0x6fu8, 0x77u8, 0x6eu8] {
        TokenKind::Unknown
    } else if s == seq![0x63u8, 0x61u8, 0x6cu8, 0x6cu8, 0x73u8, 0x69u8, 0x74u8, 0x65u8] {
        TokenKind::CallSite
    } else if s == seq![0x66u8, 0x75u8, 0x73u8, 0x65u8, 0x64u8] {
        TokenKind::Fused
    } else if s == seq![0x74u8, 0x75u8, 0x70u8, 0x6cu8, 0x65u8] {
        TokenKind::Tuple
    } else if s == seq![0x74u8, 0x65u8, 0x6eu8, 0x73u8, 0x6fu8, 0x72u8] {
        TokenKind::Tensor
    } else if s == seq![0x76u8, 0x65u8, 0x63u8, 0x74u8, 0x6fu8, 0x72u8] {
        TokenKind::Vector
    } else if s == seq![0x6du8, 0x65u8, 0x6du8, 0x72u8, 0x65u8, 0x66u8] {
        TokenKind::MemRef
    } else if s == seq![0x61u8, 0x66u8, 0x66u8, 0x69u8, 0x6eu8, 0x65u8, 0x5fu8, 0x6du8, 0x61u8, 0x70u8] {
        TokenKind::AffineMap
    } else if s == seq![0x61u8, 0x66u8, 0x66u8, 0x69u8, 0x6eu8, 0x65u8, 0x5fu8, 0x73u8, 0x65u8, 0x74u8] {
        TokenKind::AffineSet
    } else if s == seq![0x6du8, 0x6fu8, 0x64u8] {
        TokenKind::Mod
    } else if s == seq![0x66u8, 0x6cu8, 0x6fu8, 0x6fu8, 0x72u8, 0x64u8, 0x69u8, 0x76u8] {
        TokenKind::FloorDiv
    } else if s == seq![0x63u8, 0x65u8, 0x69u8, 0x6cu8, 0x64u8, 0x69u8, 0x76u8] {
        TokenKind::CeilDiv
    } else if s == seq![0x73u8, 0x74u8, 0x72u8, 0x69u8, 0x64u8, 0x65u8, 0x64u8] {
        TokenKind::Strided
    } else if s == seq![0x64u8, 0x65u8, 0x6eu8, 0x73u8, 0x65u8] {
        TokenKind::Dense
    } else if s == seq![0x73u8, 0x70u8, 0x61u8, 0x72u8, 0x73u8, 0x65u8] {
        TokenKind::Sparse
    } else if s == seq![0x64u8, 0x65u8, 0x6eu8, 0x73u8, 0x65u8, 0x5fu8, 0x72u8, 0x65u8, 0x73u8, 0x6fu8, 0x75u8, 0x72u8, 0x63u8, 0x65u8] {
        TokenKind::DenseResource
    } else {
        TokenKind::BareIdentifier
    }
}

fn keyword_kind(bytes: &[u8], start: usize, end: usize) -> (r: TokenKind)
    requires
        start <= end <= bytes@.len(),
    ensures
        r == spec_keyword_kind(bytes@.subrange(start as int, end as int)),
{
    if word_is(bytes, start, end, &[0x6c, 0x6f, 0x63]) {
        return TokenKind::Loc;
    }
    if word_is(bytes, start, end, &[0x75, 0x6e, 0x6b, 0x6e, 0x6f, 0x77, 0x6e]) {
        return TokenKind::Unknown;
    }
    if word_is(bytes, start, end, &[0x63, 0x61, 0x6c, 0x6c, 0x73, 0x69, 0x74, 0x65]) {
        return TokenKind::CallSite;
    }
    if word_is(bytes, start, end, &[0x66, 0x75, 0x73, 0x65, 0x64]) {
        return TokenKind::Fused;
    }
    if word_is(bytes, start, end, &[0x74, 0x75, 0x70, 0x6c, 0x65]) {
        return TokenKind::Tuple;
    }
    if word_is(bytes, start, end, &[0x74, 0x65, 0x6e, 0x73, 0x6f, 0x72]) {
        return TokenKind::Tensor;
    }
    if word_is(bytes, start, end, &[0x76, 0x65, 0x63, 0x74, 0x6f, 0x72]) {
        return TokenKind::Vector;
    }
    if word_is(bytes, start, end, &[0x6d, 0x65, 0x6d, 0x72, 0x65, 0x66]) {
        return TokenKind::MemRef;
    }
    if word_is(bytes, start, end, &[0x61, 0x66, 0x66, 0x69, 0x6e, 0x65, 0x5f, 0x6d, 0x61, 0x70]) {
        return TokenKind::AffineMap;
    }
    if word_is(bytes, start, end, &[0x61, 0x66, 0x66, 0x69, 0x6e, 0x65, 0x5f, 0x73, 0x65, 0x74]) {
        return TokenKind::AffineSet;
    }
    if word_is(bytes, start, end, &[0x6d, 0x6f, 0x64]) {
        return TokenKind::Mod;
    }
    if word_is(bytes, start, end, &[0x66, 0x6c, 0x6f, 0x6f, 0x72, 0x64, 0x69, 0x76]) {
        return TokenKind::FloorDiv;
    }
    if word_is(bytes, start, end, &[0x63, 0x65, 0x69, 0x6c, 0x64, 0x69, 0x76]) {
        return TokenKind::CeilDiv;
    }
    if word_is(bytes, start, end, &[0x73, 0x74, 0x72, 0x69, 0x64, 0x65, 0x64]) {
        return TokenKind::Strided;
    }
    if word_is(bytes, start, end, &[0x64, 0x65, 0x6e, 0x73, 0x65]) {
        return TokenKind::Dense;
    }
    if word_is(bytes, start, end, &[0x73, 0x70, 0x61, 0x72, 0x73, 0x65]) {
        return TokenKind::Sparse;
    }
    if word_is(bytes, start, end, &[0x64, 0x65, 0x6e, 0x73, 0x65, 0x5f, 0x72, 0x65, 0x73, 0x6f, 0x75, 0x72, 0x63, 0x65]) {
        return TokenKind::DenseResource;
    }
    TokenKind::BareIdentifier
}

/// `x` separates dimensions when it follows a dimension and precedes one.
pub open spec fn spec_is_dimension_x_suffix(next: Option<u8>) -> bool {
    match next {
        Some(b) => spec_is_digit(b) || b == 0x3f || b == 0x2a || b == 0x69 || b == 0x73 || b
            == 0x75 || b == 0x66 || b == 0x62 || b == 0x21 || b == 0x74 || b == 0x76 || b == 0x6d,
        None => false,
    }
}

fn is_dimension_x_suffix(next: Option<u8>) -> (r: bool)
    ensures
        r == spec_is_dimension_x_suffix(next),
{
    match next {
        Some(b) => is_digit(b) || b == 0x3f || b == 0x2a || b == 0x69 || b == 0x73 || b == 0x75
            || b == 0x66 || b == 0x62 || b == 0x21 || b == 0x74 || b == 0x76 || b == 0x6d,
        None => false,
    }
}

/// The kind of the last token that is neither whitespace nor a comment.
pub open spec fn last_significant_kind(toks: Seq<Token>) -> Option<TokenKind>
    decreases toks.len(),
{
    if toks.len() == 0 {
        None
    } else if toks.last().spec_kind() == TokenKind::Whitespace || toks.last().spec_kind()
        == TokenKind::LineComment {
        last_significant_kind(toks.drop_last())
    } else {
        Some(toks.last().spec_kind())
    }
}

/// The first byte at or after `from` that is not whitespace.
pub open spec fn first_non_whitespace(bytes: Seq<u8>, from: int) -> Option<u8>
    decreases bytes.len() - from,
{
    if from < 0 || from >= bytes.len() {
        None
    } else if spec_is_whitespace(bytes[from]) {
        first_non_whitespace(bytes, from + 1)
    } else {
        Some(bytes[from])
    }
}

// ---------------------------------------------------------------------------
// The lexical grammar, as spec functions over the source bytes.

/// A diagnostic as a kind and a byte range.
pub type DiagnosticSpan = (DiagnosticKind, int, int);

/// A token as a kind and a byte range.
pub type TokenSpan = (TokenKind, int, int);

pub open spec fn diagnostic_span(d: Diagnostic) -> DiagnosticSpan {
    (d.spec_kind(), d.spec_range().spec_start() as int, d.spec_range().spec_end() as int)
}

pub open spec fn token_span(t: Token) -> TokenSpan {
    (t.spec_kind(), t.spec_start(), t.spec_end())
}

pub open spec fn diagnostic_spans(ds: Seq<Diagnostic>) -> Seq<DiagnosticSpan> {
    ds.map_values(|d: Diagnostic| diagnostic_span(d))
}

pub open spec fn token_spans(ts: Seq<Token>) -> Seq<TokenSpan> {
    ts.map_values(|t: Token| token_span(t))
}

/// The end of the run of `class` bytes that starts at `pos`.
pub open spec fn run_end(b: Seq<u8>, pos: int, class: ByteClass) -> int
    decreases b.len() - pos,
{
    if pos < 0 || pos >= b.len() || !class_holds(class, b[pos]) {
        pos
    } else {
        run_end(b, pos + 1, class)
    }
}

/// Scans the body of a string literal from `p` (just after the opening quote):
/// where scanning stops, the escape diagnostics met, and whether the closing
/// quote was found.
pub open spec fn string_body(b: Seq<u8>, p: int) -> (int, Seq<DiagnosticSpan>, bool)
    decreases b.len() - p,
{
    if p < 0 || p >= b.len() {
        (p, seq![], false)
    } else if b[p] == 0x22 {
        (p + 1, seq![], true)
    } else if b[p] == 0x0a || b[p] == 0x0b || b[p] == 0x0c {
        (p, seq![], false)
    } else if b[p] == 0x5c {
        let q = p + 1;
        if q >= b.len() {
            (q, seq![], false)
        } else if b[q] == 0x22 || b[q] == 0x5c || b[q] == 0x6e || b[q] == 0x74 {
            string_body(b, q + 1)
        } else if spec_is_hex_digit(b[q]) && q + 1 < b.len() && spec_is_hex_digit(b[q + 1]) {
            string_body(b, q + 2)
        } else {
            let rest = string_body(b, q + 1);
            (rest.0, seq![(DiagnosticKind::InvalidEscape, p, q + 1)] + rest.1, rest.2)
        }
    } else {
        string_body(b, p + 1)
    }
}

/// A string literal whose quote is at `start`: its end and diagnostics.
pub open spec fn string_literal(b: Seq<u8>, start: int, p: int) -> (int, Seq<DiagnosticSpan>) {
    let body = string_body(b, p);
    (body.0, if body.2 {
        body.1
    } else {
        body.1.push((DiagnosticKind::UnterminatedString, start, body.0))
    })
}

/// A numeric literal whose first digit is at `p - 1`.
pub open spec fn number_literal(b: Seq<u8>, p: int) -> (TokenKind, int) {
    let start = p - 1;
    if b[start] == 0x30 && p < b.len() && b[p] == 0x78 && p + 1 < b.len() && spec_is_hex_digit(
        b[p + 1],
    ) {
        let e = run_end(b, p + 1, ByteClass::HexDigit);
        (if e - start > 18 {
            TokenKind::WideInteger
        } else {
            TokenKind::Integer
        }, e)
    } else {
        let e1 = run_end(b, p, ByteClass::Digit);
        let fraction = e1 < b.len() && b[e1] == 0x2e;
        let e2 = if fraction {
            run_end(b, e1 + 1, ByteClass::Digit)
        } else {
            e1
        };
        let c = e2 + 1;
        let c2 = if c < b.len() && (b[c] == 0x2b || b[c] == 0x2d) {
            c + 1
        } else {
            c
        };
        let exponent = e2 < b.len() && (b[e2] == 0x65 || b[e2] == 0x45) && c2 < b.len()
            && spec_is_digit(b[c2]);
        let e3 = if exponent {
            run_end(b, c2 + 1, ByteClass::Digit)
        } else {
            e2
        };
        (if fraction || exponent {
            TokenKind::Float
        } else {
            TokenKind::Integer
        }, e3)
    }
}

/// The end of a `%`, `^`, `!` or `#` identifier suffix starting at `p`, if any.
pub open spec fn prefixed_suffix(b: Seq<u8>, p: int) -> Option<int> {
    if 0 <= p < b.len() && spec_is_digit(b[p]) {
        Some(run_end(b, p, ByteClass::Digit))
    } else if 0 <= p < b.len() && spec_is_suffix_start(b[p]) {
        Some(run_end(b, p + 1, ByteClass::SuffixContinue))
    } else {
        None
    }
}

pub open spec fn is_dimension_predecessor(prev: Option<TokenKind>) -> bool {
    prev == Some(TokenKind::Integer) || prev == Some(TokenKind::Question) || prev == Some(
        TokenKind::Star,
    ) || prev == Some(TokenKind::RBracket)
}

/// The kind of a bare word spanning `[start, end)`.
pub open spec fn bare_word_kind(b: Seq<u8>, start: int, end: int) -> TokenKind {
    let w = b.subrange(start, end);
    if spec_is_integer_type(w) {
        TokenKind::IntType
    } else if spec_is_float_type(w) {
        TokenKind::FloatType
    } else if w == seq![0x69u8, 0x6e, 0x64, 0x65, 0x78] {
        TokenKind::IndexType
    } else {
        spec_keyword_kind(w)
    }
}

/// The kind of the punctuation token that a single byte forms, if any.
pub open spec fn punctuation_kind(byte: u8) -> Option<TokenKind> {
    if byte == 0x28 {
        Some(TokenKind::LParen)
    } else if byte == 0x29 {
        Some(TokenKind::RParen)
    } else if byte == 0x7b {
        Some(TokenKind::LBrace)
    } else if byte == 0x7d {
        Some(TokenKind::RBrace)
    } else if byte == 0x5b {
        Some(TokenKind::LBracket)
    } else if byte == 0x5d {
        Some(TokenKind::RBracket)
    } else if byte == 0x3c {
        Some(TokenKind::Less)
    } else if byte == 0x3e {
        Some(TokenKind::Greater)
    } else if byte == 0x3a {
        Some(TokenKind::Colon)
    } else if byte == 0x2c {
        Some(TokenKind::Comma)
    } else if byte == 0x3d {
        Some(TokenKind::Equal)
    } else if byte == 0x2b {
        Some(TokenKind::Plus)
    } else if byte == 0x2a {
        Some(TokenKind::Star)
    } else if byte == 0x3f {
        Some(TokenKind::Question)
    } else if byte == 0x7c {
        Some(TokenKind::VerticalBar)
    } else if byte == 0x2f {
        Some(TokenKind::Slash)
    } else {
        None
    }
}

/// Whether the two bytes at `p` are `first` then `second`.
pub open spec fn two_bytes_at(b: Seq<u8>, p: int, first: u8, second: u8) -> bool {
    0 <= p && p + 1 < b.len() && b[p] == first && b[p + 1] == second
}

/// One token starting at `pos`, after tokens whose last significant kind is
/// `prev`: its kind, where it ends, and the diagnostics it raises.
pub open spec fn scan_token(b: Seq<u8>, pos: int, prev: Option<TokenKind>) -> (
    TokenKind,
    int,
    Seq<DiagnosticSpan>,
) {
    let byte = b[pos];
    let p = pos + 1;
    if spec_is_whitespace(byte) {
        (TokenKind::Whitespace, run_end(b, p, ByteClass::Whitespace), seq![])
    } else if byte == 0x2f && p < b.len() && b[p] == 0x2f {
        (TokenKind::LineComment, run_end(b, p + 1, ByteClass::NotNewline), seq![])
    } else if byte == 0x22 {
        let s = string_literal(b, pos, p);
        (TokenKind::String, s.0, s.1)
    } else if byte == 0x40 {
        if p < b.len() && b[p] == 0x22 {
            let s = string_literal(b, pos, p + 1);
            (TokenKind::AtIdentifier, s.0, s.1)
        } else if p < b.len() && spec_is_bare_start(b[p]) {
            (TokenKind::AtIdentifier, run_end(b, p + 1, ByteClass::BareContinue), seq![])
        } else {
            (TokenKind::Invalid, p, seq![(DiagnosticKind::InvalidIdentifier, pos, p)])
        }
    } else if byte == 0x25 || byte == 0x5e || byte == 0x21 || (byte == 0x23 && !two_bytes_at(
        b,
        p,
        0x2d,
        0x7d,
    )) {
        let kind = if byte == 0x25 {
            TokenKind::PercentIdentifier
        } else if byte == 0x5e {
            TokenKind::CaretIdentifier
        } else if byte == 0x21 {
            TokenKind::ExclamationIdentifier
        } else {
            TokenKind::HashIdentifier
        };
        match prefixed_suffix(b, p) {
            Some(e) => (kind, e, seq![]),
            None => (TokenKind::Invalid, p, seq![(DiagnosticKind::InvalidIdentifier, pos, p)]),
        }
    } else if byte == 0x23 {
        (TokenKind::FileMetadataEnd, p + 2, seq![])
    } else if byte == 0x78 && is_dimension_predecessor(prev) && spec_is_dimension_x_suffix(
        first_non_whitespace(b, p),
    ) {
        (TokenKind::X, p, seq![])
    } else if spec_is_bare_start(byte) {
        let e = run_end(b, p, ByteClass::BareContinue);
        (bare_word_kind(b, pos, e), e, seq![])
    } else if spec_is_digit(byte) {
        let n = number_literal(b, p);
        (n.0, n.1, seq![])
    } else if byte == 0x2d && p < b.len() && b[p] == 0x3e {
        (TokenKind::Arrow, p + 1, seq![])
    } else if byte == 0x2d {
        (TokenKind::Minus, p, seq![])
    } else if byte == 0x2e && two_bytes_at(b, p, 0x2e, 0x2e) {
        (TokenKind::Ellipsis, p + 2, seq![])
    } else if byte == 0x7b && two_bytes_at(b, p, 0x2d, 0x23) {
        (TokenKind::FileMetadataBegin, p + 2, seq![])
    } else if punctuation_kind(byte) is Some {
        (punctuation_kind(byte).unwrap(), p, seq![])
    } else {
        (TokenKind::Invalid, p, seq![(DiagnosticKind::InvalidByte, pos, p)])
    }
}

/// The last significant kind after a token of `kind`, given the one before.
pub open spec fn next_significant(prev: Option<TokenKind>, kind: TokenKind) -> Option<TokenKind> {
    if kind == TokenKind::Whitespace || kind == TokenKind::LineComment {
        prev
    } else {
        Some(kind)
    }
}

/// The tokens and diagnostics produced from `pos` onward, `count` tokens having
/// been produced already.
pub open spec fn lex_from(
    b: Seq<u8>,
    pos: int,
    count: int,
    prev: Option<TokenKind>,
    max_tokens: int,
) -> (Seq<TokenSpan>, Seq<DiagnosticSpan>)
    decreases b.len() - pos,
{
    if pos < 0 || pos >= b.len() {
        (seq![], seq![])
    } else if count >= max_tokens {
        (
            seq![(TokenKind::Invalid, pos, b.len() as int)],
            seq![(DiagnosticKind::TokenLimit, pos, b.len() as int)],
        )
    } else {
        let t = scan_token(b, pos, prev);
        if t.1 <= pos || t.1 > b.len() {
            (seq![], seq![])
        } else {
            let rest = lex_from(b, t.1, count + 1, next_significant(prev, t.0), max_tokens);
            (seq![(t.0, pos, t.1)] + rest.0, t.2 + rest.1)
        }
    }
}

/// The complete token tape and diagnostics for `b` under the given limits.
pub open spec fn spec_lex(b: Seq<u8>, max_file_bytes: int, max_tokens: int) -> (
    Seq<TokenSpan>,
    Seq<DiagnosticSpan>,
) {
    let body = lex_from(b, 0, 0, None, max_tokens);
    (
        body.0.push((TokenKind::Eof, b.len() as int, b.len() as int)),
        if b.len() > max_file_bytes {
            seq![(DiagnosticKind::FileLimit, 0, b.len() as int)] + body.1
        } else {
            body.1
        },
    )
}

proof fn lemma_run_end(b: Seq<u8>, pos: int, class: ByteClass)
    requires
        0 <= pos <= b.len(),
    ensures
        pos <= run_end(b, pos, class) <= b.len(),
        forall|i: int| pos <= i < run_end(b, pos, class) ==> class_holds(class, #[trigger] b[i]),
        run_end(b, pos, class) == b.len() || !class_holds(class, b[run_end(b, pos, class)]),
    decreases b.len() - pos,
{
    if pos < b.len() && class_holds(class, b[pos]) {
        lemma_run_end(b, pos + 1, class);
    }
}

/// A whitespace token covers whitespace bytes only.
proof fn lemma_scan_whitespace(b: Seq<u8>, pos: int, prev: Option<TokenKind>)
    requires
        0 <= pos < b.len(),
        scan_token(b, pos, prev).0 == TokenKind::Whitespace,
    ensures
        spec_is_whitespace(b[pos]),
        scan_token(b, pos, prev).1 == run_end(b, pos + 1, ByteClass::Whitespace),
{
}

/// Every whitespace span that lexing from `pos` produces covers whitespace bytes.
proof fn lemma_lex_from_blank(b: Seq<u8>, pos: int, count: int, prev: Option<TokenKind>, max_tokens: int)
    ensures
        forall|i: int, k: int|
            0 <= i < lex_from(b, pos, count, prev, max_tokens).0.len() && #[trigger] lex_from(
                b,
                pos,
                count,
                prev,
                max_tokens,
            ).0[i].0 == TokenKind::Whitespace && lex_from(b, pos, count, prev, max_tokens).0[i].1 <= k
                < lex_from(b, pos, count, prev, max_tokens).0[i].2 ==> spec_is_whitespace(#[trigger] b[k]),
    decreases b.len() - pos,
{
    if pos < 0 || pos >= b.len() || count >= max_tokens {
    } else {
        let t = scan_token(b, pos, prev);
        if t.1 <= pos || t.1 > b.len() {
        } else {
            let rest = lex_from(b, t.1, count + 1, next_significant(prev, t.0), max_tokens);
            lemma_lex_from_blank(b, t.1, count + 1, next_significant(prev, t.0), max_tokens);
            let all = lex_from(b, pos, count, prev, max_tokens).0;
            assert(all == seq![(t.0, pos, t.1)] + rest.0);
            if t.0 == TokenKind::Whitespace {
                lemma_scan_whitespace(b, pos, prev);
                lemma_run_end(b, pos + 1, ByteClass::Whitespace);
            }
            assert forall|i: int, k: int|
                0 <= i < all.len() && #[trigger] all[i].0 == TokenKind::Whitespace && all[i].1 <= k
                    < all[i].2 implies spec_is_whitespace(#[trigger] b[k]) by {
                if i > 0 {
                    assert(all[i] == rest.0[i - 1]);
                } else if k > pos {
                    assert(class_holds(ByteClass::Whitespace, b[k]));
                }
            }
        }
    }
}

/// The whitespace tokens of `toks` cover whitespace bytes of `bytes` only.
pub open spec fn whitespace_tokens_blank(toks: Seq<Token>, bytes: Seq<u8>) -> bool {
    forall|i: int, k: int|
        0 <= i < toks.len() && #[trigger] toks[i].spec_kind() == TokenKind::Whitespace
            && toks[i].spec_start() <= k < toks[i].spec_end() ==> spec_is_whitespace(#[trigger] bytes[k])
}

/// The lexer's whitespace tokens hold nothing but whitespace.
pub proof fn lemma_lexed_whitespace_blank(r: Lexed, bytes: Seq<u8>, max_file_bytes: int, max_tokens: int)
    requires
        lexes_as(r, bytes, max_file_bytes, max_tokens),
    ensures
        whitespace_tokens_blank(r.spec_tokens(), bytes),
{
    let toks = r.spec_tokens();
    let body = lex_from(bytes, 0, 0, None, max_tokens);
    lemma_lex_from_blank(bytes, 0, 0, None, max_tokens);
    assert forall|i: int, k: int|
        0 <= i < toks.len() && #[trigger] toks[i].spec_kind() == TokenKind::Whitespace
            && toks[i].spec_start() <= k < toks[i].spec_end() implies spec_is_whitespace(#[trigger] bytes[k]) by {
        assert(token_spans(toks)[i] == token_span(toks[i]));
        assert(token_spans(toks)[i] == spec_lex(bytes, max_file_bytes, max_tokens).0[i]);
        if i < body.0.len() {
            assert(spec_lex(bytes, max_file_bytes, max_tokens).0[i] == body.0[i]);
        } else {
            assert(token_spans(toks).len() == toks.len());
            assert(spec_lex(bytes, max_file_bytes, max_tokens).0 == body.0.push(
                (TokenKind::Eof, bytes.len() as int, bytes.len() as int),
            ));
            assert(i == body.0.len());
            assert(spec_lex(bytes, max_file_bytes, max_tokens).0[i].0 == TokenKind::Eof);
        }
    }
}

/// A run of a byte class ends at the first byte from `pos` on outside the class.
pub proof fn lemma_run_end_unique(b: Seq<u8>, pos: int, class: ByteClass, e: int)
    requires
        0 <= pos <= e <= b.len(),
        forall|i: int| pos <= i < e ==> class_holds(class, #[trigger] b[i]),
        e == b.len() || !class_holds(class, b[e]),
    ensures
        run_end(b, pos, class) == e,
    decreases e - pos,
{
    if pos < e {
        assert(class_holds(class, b[pos]));
        lemma_run_end_unique(b, pos + 1, class, e);
    }
}

proof fn lemma_string_body_bounds(b: Seq<u8>, p: int)
    requires
        0 <= p <= b.len(),
    ensures
        p <= string_body(b, p).0 <= b.len(),
        forall|i: int|
            0 <= i < string_body(b, p).1.len() ==> p <= (#[trigger] string_body(b, p).1[i]).1
                <= string_body(b, p).1[i].2 <= string_body(b, p).0 && string_body(b, p).1[i].0
                == DiagnosticKind::InvalidEscape,
    decreases b.len() - p,
{
    if p < b.len() && b[p] != 0x22 && !(b[p] == 0x0a || b[p] == 0x0b || b[p] == 0x0c) {
        if b[p] == 0x5c {
            let q = p + 1;
            if q < b.len() {
                if b[q] == 0x22 || b[q] == 0x5c || b[q] == 0x6e || b[q] == 0x74 {
                    lemma_string_body_bounds(b, q + 1);
                } else if spec_is_hex_digit(b[q]) && q + 1 < b.len() && spec_is_hex_digit(b[q + 1]) {
                    lemma_string_body_bounds(b, q + 2);
                } else {
                    lemma_string_body_bounds(b, q + 1);
                    let rest = string_body(b, q + 1);
                    assert forall|i: int| 0 <= i < string_body(b, p).1.len() implies p <= (
                    #[trigger] string_body(b, p).1[i]).1 <= string_body(b, p).1[i].2
                        <= string_body(b, p).0 && string_body(b, p).1[i].0
                        == DiagnosticKind::InvalidEscape by {
                        if i > 0 {
                            assert(string_body(b, p).1[i] == rest.1[i - 1]);
                        }
                    }
                }
            }
        } else {
            lemma_string_body_bounds(b, p + 1);
        }
    }
}

/// Diagnostics whose ranges lie within `len` bytes.
pub open spec fn diagnostics_in_bounds(d: Seq<Diagnostic>, len: int) -> bool {
    forall|i: int| 0 <= i < d.len() ==> #[trigger] d[i].spec_range().spec_end() <= len
}

/// Diagnostics that the scanner itself reports, as opposed to limit diagnostics.
pub open spec fn is_scan_diagnostic(kind: DiagnosticKind) -> bool {
    kind != DiagnosticKind::FileLimit && kind != DiagnosticKind::TokenLimit
}

struct Lexer<'a> {
    bytes: &'a [u8],
    position: usize,
    tokens: Vec<Token>,
    diagnostics: Vec<Diagnostic>,
}

impl<'a> Lexer<'a> {
    spec fn inv(&self) -> bool {
        &&& self.bytes@.len() <= u32::MAX
        &&& self.position <= self.bytes@.len()
        &&& tiles(self.tokens@, self.position as int)
        &&& diagnostics_in_bounds(self.diagnostics@, self.bytes@.len() as int)
    }

    /// `next` scanned forward from `self` without adding tokens, adding only
    /// in-bounds scanner diagnostics.
    spec fn scanned_to(&self, next: Self) -> bool {
        &&& next.bytes == self.bytes
        &&& next.tokens@ == self.tokens@
        &&& self.position <= next.position <= next.bytes@.len()
        &&& next.diagnostics@.len() >= self.diagnostics@.len()
        &&& forall|i: int|
            0 <= i < self.diagnostics@.len() ==> #[trigger] next.diagnostics@[i]
                == self.diagnostics@[i]
        &&& forall|i: int|
            self.diagnostics@.len() <= i < next.diagnostics@.len() ==> is_scan_diagnostic(
                #[trigger] next.diagnostics@[i].spec_kind(),
            ) && next.diagnostics@[i].spec_range().spec_end() <= next.bytes@.len()
    }

    fn peek(&self) -> (r: Option<u8>)
        ensures
            r == (if self.position < self.bytes@.len() {
                Some(self.bytes@[self.position as int])
            } else {
                None
            }),
    {
        if self.position < self.bytes.len() {
            Some(self.bytes[self.position])
        } else {
            None
        }
    }

    fn byte_at(&self, index: usize) -> (r: Option<u8>)
        ensures
            r == (if index < self.bytes@.len() {
                Some(self.bytes@[index as int])
            } else {
                None
            }),
    {
        if index < self.bytes.len() {
            Some(self.bytes[index])
        } else {
            None
        }
    }

    /// Whether the two bytes after the cursor are `first` then `second`.
    fn next_two_are(&self, first: u8, second: u8) -> (r: bool)
        requires
            self.position <= self.bytes@.len(),
        ensures
            r == (self.bytes@.len() - self.position >= 2 && self.bytes@[self.position as int]
                == first && self.bytes@[self.position + 1] == second),
    {
        self.bytes.len() - self.position >= 2 && self.bytes[self.position] == first
            && self.bytes[self.position + 1] == second
    }

    fn bump(&mut self) -> (r: u8)
        requires
            old(self).position < old(self).bytes@.len(),
        ensures
            r == old(self).bytes@[old(self).position as int],
            final(self).position == old(self).position + 1,
            final(self).bytes == old(self).bytes,
            final(self).tokens == old(self).tokens,
            final(self).diagnostics == old(self).diagnostics,
    {
        let byte = self.bytes[self.position];
        self.position = self.position + 1;
        byte
    }

    fn eat_while(&mut self, class: ByteClass)
        requires
            old(self).position <= old(self).bytes@.len(),
        ensures
            final(self).bytes == old(self).bytes,
            final(self).tokens == old(self).tokens,
            final(self).diagnostics == old(self).diagnostics,
            old(self).position <= final(self).position <= final(self).bytes@.len(),
            forall|i: int|
                old(self).position <= i < final(self).position ==> class_holds(
                    class,
                    #[trigger] final(self).bytes@[i],
                ),
            final(self).position == final(self).bytes@.len() || !class_holds(
                class,
                final(self).bytes@[final(self).position as int],
            ),
            final(self).position == run_end(old(self).bytes@, old(self).position as int, class),
    {
        let ghost start = self.position;
        while self.position < self.bytes.len() && class_test(class, self.bytes[self.position])
            invariant
                start <= self.position <= self.bytes@.len(),
                self.bytes == old(self).bytes,
                self.tokens == old(self).tokens,
                self.diagnostics == old(self).diagnostics,
                start == old(self).position,
                forall|i: int| start <= i < self.position ==> class_holds(class, #[trigger] self.bytes@[i]),
            decreases self.bytes@.len() - self.position,
        {
            self.position = self.position + 1;
        }
        proof {
            lemma_run_end_unique(self.bytes@, start as int, class, self.position as int);
        }
    }

    fn push(&mut self, kind: TokenKind, start: usize, end: usize)
        requires
            start <= end <= u32::MAX,
        ensures
            final(self).tokens@.len() == old(self).tokens@.len() + 1,
            final(self).tokens@.drop_last() == old(self).tokens@,
            token_is(final(self).tokens@.last(), kind, start as int, end as int),
            token_spans(final(self).tokens@) == token_spans(old(self).tokens@).push(
                (kind, start as int, end as int),
            ),
            final(self).bytes == old(self).bytes,
            final(self).position == old(self).position,
            final(self).diagnostics == old(self).diagnostics,
    {
        let range = TextRange::ordered_new(start as u32, end as u32);
        self.tokens.push(Token { kind, range });
        proof {
            assert(token_spans(self.tokens@) =~= token_spans(old(self).tokens@).push(
                (kind, start as int, end as int),
            ));
        }
    }

    fn diagnostic(&mut self, kind: DiagnosticKind, start: usize, end: usize)
        requires
            start <= end <= u32::MAX,
        ensures
            final(self).diagnostics@.len() == old(self).diagnostics@.len() + 1,
            final(self).diagnostics@.drop_last() == old(self).diagnostics@,
            diagnostic_is(final(self).diagnostics@.last(), kind, start as int, end as int),
            diagnostic_spans(final(self).diagnostics@) == diagnostic_spans(
                old(self).diagnostics@,
            ).push((kind, start as int, end as int)),
            final(self).bytes == old(self).bytes,
            final(self).position == old(self).position,
            final(self).tokens == old(self).tokens,
    {
        let range = TextRange::ordered_new(start as u32, end as u32);
        self.diagnostics.push(Diagnostic { kind, range });
        proof {
            assert(diagnostic_spans(self.diagnostics@) =~= diagnostic_spans(
                old(self).diagnostics@,
            ).push((kind, start as int, end as int)));
        }
    }
}


impl<'a> Lexer<'a> {
    /// Scans the rest of a string literal whose opening quote began at `start`.
    fn string(&mut self, start: usize)
        requires
            old(self).bytes@.len() <= u32::MAX,
            start <= old(self).position <= old(self).bytes@.len(),
        ensures
            old(self).scanned_to(*final(self)),
            final(self).position == string_literal(
                old(self).bytes@,
                start as int,
                old(self).position as int,
            ).0,
            diagnostic_spans(final(self).diagnostics@) == diagnostic_spans(old(self).diagnostics@)
                + string_literal(old(self).bytes@, start as int, old(self).position as int).1,
    {
        let ghost init = *self;
        let ghost b = self.bytes@;
        let ghost body0 = string_body(b, init.position as int);
        let mut terminated = false;
        loop
            invariant_except_break
                !terminated,
            invariant
                self.bytes@.len() <= u32::MAX,
                b == self.bytes@,
                start <= self.position <= self.bytes@.len(),
                init.scanned_to(*self),
                init.position >= start,
                !terminated ==> body0.0 == string_body(b, self.position as int).0,
                !terminated ==> body0.2 == string_body(b, self.position as int).2,
                !terminated ==> diagnostic_spans(init.diagnostics@) + body0.1 == diagnostic_spans(
                    self.diagnostics@,
                ) + string_body(b, self.position as int).1,
                terminated ==> body0.0 == self.position && body0.2 && diagnostic_spans(
                    init.diagnostics@,
                ) + body0.1 == diagnostic_spans(self.diagnostics@),
            ensures
                terminated || string_body(b, self.position as int) == (
                    self.position as int,
                    Seq::<DiagnosticSpan>::empty(),
                    false,
                ),
            decreases self.bytes@.len() - self.position,
        {
            match self.peek() {
                None => {
                    break ;
                },
                Some(byte) => {
                    if byte == 0x22 {
                        self.bump();
                        terminated = true;
                        proof {
                            assert(diagnostic_spans(self.diagnostics@) + Seq::<
                                DiagnosticSpan,
                            >::empty() =~= diagnostic_spans(self.diagnostics@));
                        }
                        break ;
                    } else if byte == 0x0a || byte == 0x0b || byte == 0x0c {
                        break ;
                    } else if byte == 0x5c {
                        let escape = self.position;
                        self.bump();
                        match self.peek() {
                            Some(a) => {
                                if a == 0x22 || a == 0x5c || a == 0x6e || a == 0x74 {
                                    self.bump();
                                } else if is_hex_digit(a) && self.position + 1 < self.bytes.len()
                                    && is_hex_digit(self.bytes[self.position + 1]) {
                                    self.position = self.position + 2;
                                } else {
                                    self.bump();
                                    let ghost before = *self;
                                    self.diagnostic(
                                        DiagnosticKind::InvalidEscape,
                                        escape,
                                        self.position,
                                    );
                                    proof {
                                        lemma_push_scan_diagnostic(init, before, *self);
                                        let rest = string_body(b, self.position as int);
                                        assert(diagnostic_spans(self.diagnostics@) + rest.1
                                            =~= diagnostic_spans(before.diagnostics@) + (seq![
                                            (DiagnosticKind::InvalidEscape, escape as int, self.position as int),
                                        ] + rest.1));
                                    }
                                }
                            },
                            None => {
                                break ;
                            },
                        }
                    } else {
                        self.bump();
                    }
                },
            }
        }
        if !terminated {
            let ghost before = *self;
            self.diagnostic(DiagnosticKind::UnterminatedString, start, self.position);
            proof {
                lemma_push_scan_diagnostic(init, before, *self);
                assert(diagnostic_spans(init.diagnostics@) + body0.1 =~= diagnostic_spans(
                    before.diagnostics@,
                ));
                assert(diagnostic_spans(self.diagnostics@) =~= diagnostic_spans(
                    init.diagnostics@,
                ) + body0.1.push(
                    (DiagnosticKind::UnterminatedString, start as int, self.position as int),
                ));
            }
        }
    }

    /// Scans a numeric literal whose first digit was just consumed.
    fn number(&mut self) -> (r: TokenKind)
        requires
            0 < old(self).position <= old(self).bytes@.len(),
            old(self).bytes@.len() <= u32::MAX,
        ensures
            old(self).scanned_to(*final(self)),
            final(self).diagnostics == old(self).diagnostics,
            (r, final(self).position as int) == number_literal(
                old(self).bytes@,
                old(self).position as int,
            ),
    {
        let start = self.position - 1;
        if self.bytes[start] == 0x30 && self.peek() == Some(0x78u8) && self.position + 1
            < self.bytes.len() && is_hex_digit(self.bytes[self.position + 1]) {
            self.bump();
            self.eat_while(ByteClass::HexDigit);
            return if self.position - start > 18 {
                TokenKind::WideInteger
            } else {
                TokenKind::Integer
            };
        }
        self.eat_while(ByteClass::Digit);
        let mut float = false;
        if self.peek() == Some(0x2eu8) {
            float = true;
            self.bump();
            self.eat_while(ByteClass::Digit);
        }
        let e = self.peek();
        if e == Some(0x65u8) || e == Some(0x45u8) {
            let mut cursor = self.position + 1;
            let sign = self.byte_at(cursor);
            if sign == Some(0x2bu8) || sign == Some(0x2du8) {
                cursor = cursor + 1;
            }
            if cursor < self.bytes.len() && is_digit(self.bytes[cursor]) {
                float = true;
                self.position = cursor + 1;
                self.eat_while(ByteClass::Digit);
            }
        }
        if float {
            TokenKind::Float
        } else {
            TokenKind::Integer
        }
    }

    /// Scans the identifier after `@`; false when none follows.
    fn at_identifier(&mut self, start: usize) -> (r: bool)
        requires
            old(self).bytes@.len() <= u32::MAX,
            start <= old(self).position <= old(self).bytes@.len(),
        ensures
            old(self).scanned_to(*final(self)),
            !r ==> *final(self) == *old(self),
            ({
                let b = old(self).bytes@;
                let p = old(self).position as int;
                if p < b.len() && b[p] == 0x22 {
                    &&& r
                    &&& final(self).position == string_literal(b, start as int, p + 1).0
                    &&& diagnostic_spans(final(self).diagnostics@) == diagnostic_spans(
                        old(self).diagnostics@,
                    ) + string_literal(b, start as int, p + 1).1
                } else if p < b.len() && spec_is_bare_start(b[p]) {
                    &&& r
                    &&& final(self).position == run_end(b, p + 1, ByteClass::BareContinue)
                    &&& final(self).diagnostics == old(self).diagnostics
                } else {
                    !r
                }
            }),
    {
        let next = self.peek();
        if next == Some(0x22u8) {
            self.bump();
            self.string(start);
            true
        } else if next.is_some() && is_bare_start(next.unwrap()) {
            self.bump();
            self.eat_while(ByteClass::BareContinue);
            true
        } else {
            false
        }
    }

    /// Scans the suffix of a `%`, `^`, `!` or `#` identifier.
    fn prefixed_identifier(&mut self, start: usize, valid_kind: TokenKind) -> (r: TokenKind)
        requires
            old(self).bytes@.len() <= u32::MAX,
            start <= old(self).position <= old(self).bytes@.len(),
        ensures
            old(self).scanned_to(*final(self)),
            match prefixed_suffix(old(self).bytes@, old(self).position as int) {
                Some(e) => r == valid_kind && final(self).position == e && final(self).diagnostics
                    == old(self).diagnostics,
                None => r == TokenKind::Invalid && final(self).position == old(self).position
                    && diagnostic_spans(final(self).diagnostics@) == diagnostic_spans(
                    old(self).diagnostics@,
                ).push((DiagnosticKind::InvalidIdentifier, start as int, old(self).position as int)),
            },
    {
        let next = self.peek();
        if next.is_some() && is_digit(next.unwrap()) {
            self.eat_while(ByteClass::Digit);
            return valid_kind;
        }
        if next.is_some() && is_suffix_start(next.unwrap()) {
            self.bump();
            self.eat_while(ByteClass::SuffixContinue);
            return valid_kind;
        }
        let ghost before = *self;
        self.diagnostic(DiagnosticKind::InvalidIdentifier, start, self.position);
        proof {
            lemma_push_scan_diagnostic(before, before, *self);
        }
        TokenKind::Invalid
    }

    /// Whether an `x` just consumed separates shape dimensions.
    fn at_dimension_x(&self) -> (r: bool)
        requires
            self.position <= self.bytes@.len(),
        ensures
            r == ((last_significant_kind(self.tokens@) == Some(TokenKind::Integer)
                || last_significant_kind(self.tokens@) == Some(TokenKind::Question)
                || last_significant_kind(self.tokens@) == Some(TokenKind::Star)
                || last_significant_kind(self.tokens@) == Some(TokenKind::RBracket))
                && spec_is_dimension_x_suffix(
                first_non_whitespace(self.bytes@, self.position as int),
            )),
    {
        let mut index = self.tokens.len();
        let mut previous: Option<TokenKind> = None;
        proof {
            assert(self.tokens@.take(index as int) =~= self.tokens@);
        }
        while index > 0
            invariant
                index <= self.tokens@.len(),
                last_significant_kind(self.tokens@) == (match previous {
                    Some(k) => Some(k),
                    None => last_significant_kind(self.tokens@.take(index as int)),
                }),
                previous is Some ==> index == 0 || true,
            decreases index,
        {
            let kind = self.tokens[index - 1].kind();
            proof {
                let t = self.tokens@.take(index as int);
                assert(t.drop_last() =~= self.tokens@.take(index - 1));
                assert(t.last() == self.tokens@[index - 1]);
            }
            if kind != TokenKind::Whitespace && kind != TokenKind::LineComment {
                if previous.is_none() {
                    previous = Some(kind);
                }
                index = 0;
            } else {
                index = index - 1;
            }
        }
        proof {
            assert(self.tokens@.take(0) =~= Seq::<Token>::empty());
        }
        let significant = previous == Some(TokenKind::Integer) || previous == Some(
            TokenKind::Question,
        ) || previous == Some(TokenKind::Star) || previous == Some(TokenKind::RBracket);
        if !significant {
            return false;
        }
        let mut cursor = self.position;
        while cursor < self.bytes.len() && is_whitespace(self.bytes[cursor])
            invariant
                self.position <= cursor <= self.bytes@.len(),
                first_non_whitespace(self.bytes@, self.position as int) == first_non_whitespace(
                    self.bytes@,
                    cursor as int,
                ),
            decreases self.bytes@.len() - cursor,
        {
            cursor = cursor + 1;
        }
        let next = self.byte_at(cursor);
        is_dimension_x_suffix(next)
    }
}

impl<'a> Lexer<'a> {
    /// Scans one token starting at the cursor and returns its kind.
    fn scan(&mut self) -> (r: TokenKind)
        requires
            old(self).bytes@.len() <= u32::MAX,
            old(self).position < old(self).bytes@.len(),
        ensures
            old(self).scanned_to(*final(self)),
            final(self).position > old(self).position,
            r != TokenKind::Eof,
            ({
                let t = scan_token(
                    old(self).bytes@,
                    old(self).position as int,
                    last_significant_kind(old(self).tokens@),
                );
                &&& r == t.0
                &&& final(self).position == t.1
                &&& diagnostic_spans(final(self).diagnostics@) == diagnostic_spans(
                    old(self).diagnostics@,
                ) + t.2
            }),
    {
        proof {
            assert(diagnostic_spans(self.diagnostics@) + Seq::<DiagnosticSpan>::empty()
                =~= diagnostic_spans(self.diagnostics@));
        }
        let start = self.position;
        let byte = self.bump();
        if is_whitespace(byte) {
            self.eat_while(ByteClass::Whitespace);
            TokenKind::Whitespace
        } else if byte == 0x2f && self.peek() == Some(0x2fu8) {
            self.bump();
            self.eat_while(ByteClass::NotNewline);
            TokenKind::LineComment
        } else if byte == 0x22 {
            self.string(start);
            TokenKind::String
        } else if byte == 0x40 {
            if self.at_identifier(start) {
                TokenKind::AtIdentifier
            } else {
                let ghost before = *self;
                self.diagnostic(DiagnosticKind::InvalidIdentifier, start, self.position);
                proof {
                    lemma_push_scan_diagnostic(before, before, *self);
                }
                TokenKind::Invalid
            }
        } else if byte == 0x25 {
            self.prefixed_identifier(start, TokenKind::PercentIdentifier)
        } else if byte == 0x5e {
            self.prefixed_identifier(start, TokenKind::CaretIdentifier)
        } else if byte == 0x21 {
            self.prefixed_identifier(start, TokenKind::ExclamationIdentifier)
        } else if byte == 0x23 {
            if self.next_two_are(0x2d, 0x7d) {
                self.position = self.position + 2;
                TokenKind::FileMetadataEnd
            } else {
                self.prefixed_identifier(start, TokenKind::HashIdentifier)
            }
        } else if byte == 0x78 && self.at_dimension_x() {
            TokenKind::X
        } else if is_bare_start(byte) {
            self.eat_while(ByteClass::BareContinue);
            let end = self.position;
            if is_integer_type(self.bytes, start, end) {
                TokenKind::IntType
            } else if is_float_type(self.bytes, start, end) {
                TokenKind::FloatType
            } else if word_is(self.bytes, start, end, &[0x69, 0x6e, 0x64, 0x65, 0x78]) {
                TokenKind::IndexType
            } else {
                keyword_kind(self.bytes, start, end)
            }
        } else if is_digit(byte) {
            self.number()
        } else if byte == 0x2d && self.peek() == Some(0x3eu8) {
            self.bump();
            TokenKind::Arrow
        } else if byte == 0x2d {
            TokenKind::Minus
        } else if byte == 0x2e && self.next_two_are(0x2e, 0x2e) {
            self.position = self.position + 2;
            TokenKind::Ellipsis
        } else if byte == 0x28 {
            TokenKind::LParen
        } else if byte == 0x29 {
            TokenKind::RParen
        } else if byte == 0x7b && self.next_two_are(0x2d, 0x23) {
            self.position = self.position + 2;
            TokenKind::FileMetadataBegin
        } else if byte == 0x7b {
            TokenKind::LBrace
        } else if byte == 0x7d {
            TokenKind::RBrace
        } else if byte == 0x5b {
            TokenKind::LBracket
        } else if byte == 0x5d {
            TokenKind::RBracket
        } else if byte == 0x3c {
            TokenKind::Less
        } else if byte == 0x3e {
            TokenKind::Greater
        } else if byte == 0x3a {
            TokenKind::Colon
        } else if byte == 0x2c {
            TokenKind::Comma
        } else if byte == 0x3d {
            TokenKind::Equal
        } else if byte == 0x2b {
            TokenKind::Plus
        } else if byte == 0x2a {
            TokenKind::Star
        } else if byte == 0x3f {
            TokenKind::Question
        } else if byte == 0x7c {
            TokenKind::VerticalBar
        } else if byte == 0x2f {
            TokenKind::Slash
        } else {
            let ghost before = *self;
            self.diagnostic(DiagnosticKind::InvalidByte, start, self.position);
            proof {
                lemma_push_scan_diagnostic(before, before, *self);
            }
            TokenKind::Invalid
        }
    }

    /// Scans one token and appends it to the tape.
    fn next_token(&mut self)
        requires
            old(self).inv(),
            old(self).position < old(self).bytes@.len(),
        ensures
            final(self).inv(),
            final(self).bytes == old(self).bytes,
            final(self).position > old(self).position,
            final(self).tokens@.len() == old(self).tokens@.len() + 1,
            final(self).tokens@.drop_last() == old(self).tokens@,
            forall|i: int|
                0 <= i < old(self).diagnostics@.len() ==> #[trigger] final(self).diagnostics@[i]
                    == old(self).diagnostics@[i],
            final(self).diagnostics@.len() >= old(self).diagnostics@.len(),
            forall|i: int|
                old(self).diagnostics@.len() <= i < final(self).diagnostics@.len()
                    ==> is_scan_diagnostic(#[trigger] final(self).diagnostics@[i].spec_kind()),
            ({
                let t = scan_token(
                    old(self).bytes@,
                    old(self).position as int,
                    last_significant_kind(old(self).tokens@),
                );
                &&& final(self).position == t.1
                &&& token_spans(final(self).tokens@) == token_spans(old(self).tokens@).push(
                    (t.0, old(self).position as int, t.1),
                )
                &&& diagnostic_spans(final(self).diagnostics@) == diagnostic_spans(
                    old(self).diagnostics@,
                ) + t.2
                &&& last_significant_kind(final(self).tokens@) == next_significant(
                    last_significant_kind(old(self).tokens@),
                    t.0,
                )
            }),
    {
        let ghost init = *self;
        let start = self.position;
        let kind = self.scan();
        let ghost mid = *self;
        let end = self.position;
        self.push(kind, start, end);
        proof {
            assert(self.tokens@.drop_last() == init.tokens@);
            let toks = self.tokens@;
            let old_toks = init.tokens@;
            assert(toks.drop_last() == old_toks);
            assert forall|i: int| 0 <= i < toks.len() implies #[trigger] toks[i].spec_start()
                < toks[i].spec_end() by {
                if i < old_toks.len() {
                    assert(toks[i] == old_toks[i]);
                }
            }
            assert forall|i: int| 0 <= i < toks.len() implies #[trigger] toks[i].spec_kind()
                != TokenKind::Eof by {
                if i < old_toks.len() {
                    assert(toks[i] == old_toks[i]);
                }
            }
            assert forall|i: int| 0 <= i < toks.len() - 1 implies #[trigger] toks[i].spec_end()
                == toks[i + 1].spec_start() by {
                assert(toks[i] == old_toks[i]);
                if i + 1 < old_toks.len() {
                    assert(toks[i + 1] == old_toks[i + 1]);
                } else {
                    assert(old_toks.last() == toks[i]);
                }
            }
            if old_toks.len() > 0 {
                assert(toks[0] == old_toks[0]);
            }
            assert forall|i: int| 0 <= i < self.diagnostics@.len() implies #[trigger] self.diagnostics@[i].spec_range().spec_end()
                <= self.bytes@.len() by {
                assert(self.diagnostics@[i] == mid.diagnostics@[i]);
                if i < init.diagnostics@.len() {
                    assert(mid.diagnostics@[i] == init.diagnostics@[i]);
                    assert(init.diagnostics@[i].spec_range().spec_end() <= init.bytes@.len());
                } else {
                    assert(is_scan_diagnostic(mid.diagnostics@[i].spec_kind()));
                    assert(mid.diagnostics@[i].spec_range().spec_end() <= mid.bytes@.len());
                }
            }
        }
    }
}

/// Tokenizes a source with the default [`LexerLimits`].
///
/// Scanning always returns a token tape ending in [`TokenKind::Eof`]. Problems
/// such as an unterminated token or an exceeded limit appear in
/// [`Lexed::diagnostics`].
pub fn lex(source: &Source) -> (r: Lexed)
    ensures
        lex_result(r, source.spec_bytes().len() as int, u32::MAX as int, usize::MAX as int),
        lexes_as(r, source.spec_bytes(), u32::MAX as int, usize::MAX as int),
{
    lex_with_limits(source, LexerLimits::default())
}

/// What lexing `len` bytes under the given limits yields: a lossless tape,
/// in-bounds diagnostics, a leading `FileLimit` diagnostic exactly when the
/// input is too long, and a trailing `TokenLimit` diagnostic exactly when the
/// token budget ran out, the remaining input then forming one `Invalid` token.
pub open spec fn lex_result(r: Lexed, len: int, max_file_bytes: int, max_tokens: int) -> bool {
    let toks = r.spec_tokens();
    let diags = r.spec_diagnostics();
    &&& lossless(toks, len)
    &&& diagnostics_in_bounds(diags, len)
    &&& (len > max_file_bytes) == (diags.len() > 0 && diagnostic_is(
        diags[0],
        DiagnosticKind::FileLimit,
        0,
        len,
    ))
    &&& forall|i: int|
        0 < i < diags.len() ==> #[trigger] diags[i].spec_kind() != DiagnosticKind::FileLimit
    &&& toks.len() - 1 <= max_tokens + 1
    &&& toks.len() - 1 > max_tokens ==> {
        &&& toks[toks.len() - 2].spec_kind() == TokenKind::Invalid
        &&& toks[toks.len() - 2].spec_end() == len
        &&& diagnostic_is(
            diags.last(),
            DiagnosticKind::TokenLimit,
            toks[toks.len() - 2].spec_start(),
            len,
        )
    }
    &&& forall|i: int|
        0 <= i < diags.len() && #[trigger] diags[i].spec_kind() == DiagnosticKind::TokenLimit
            ==> toks.len() - 1 > max_tokens && i == diags.len() - 1
}

/// `r` is exactly what the lexical grammar yields for `bytes`.
pub open spec fn lexes_as(r: Lexed, bytes: Seq<u8>, max_file_bytes: int, max_tokens: int) -> bool {
    &&& token_spans(r.spec_tokens()) == spec_lex(bytes, max_file_bytes, max_tokens).0
    &&& diagnostic_spans(r.spec_diagnostics()) == spec_lex(bytes, max_file_bytes, max_tokens).1
}

proof fn lemma_lex_step(b: Seq<u8>, pos: int, count: int, prev: Option<TokenKind>, max: int)
    requires
        0 <= pos < b.len(),
        count < max,
        pos < scan_token(b, pos, prev).1 <= b.len(),
    ensures
        ({
            let t = scan_token(b, pos, prev);
            let rest = lex_from(b, t.1, count + 1, next_significant(prev, t.0), max);
            lex_from(b, pos, count, prev, max) == (seq![(t.0, pos, t.1)] + rest.0, t.2 + rest.1)
        }),
{
}

/// Tokenizes a source with explicit file and token limits.
///
/// Exceeding `max_file_bytes` adds a [`DiagnosticKind::FileLimit`] diagnostic
/// and continues normal tokenization. Reaching `max_tokens` records the
/// remaining input as one [`TokenKind::Invalid`] token, adds a
/// [`DiagnosticKind::TokenLimit`] diagnostic, and stops scanning.
#[verifier::rlimit(40)]
pub fn lex_with_limits(source: &Source, limits: LexerLimits) -> (r: Lexed)
    ensures
        lex_result(
            r,
            source.spec_bytes().len() as int,
            limits.max_file_bytes as int,
            limits.max_tokens as int,
        ),
        lexes_as(r, source.spec_bytes(), limits.max_file_bytes as int, limits.max_tokens as int),
{
    let bytes = source.bytes();
    let len = bytes.len();
    let mut lexer = Lexer { bytes, position: 0, tokens: Vec::new(), diagnostics: Vec::new() };
    if len > limits.max_file_bytes {
        lexer.diagnostic(DiagnosticKind::FileLimit, 0, len);
    }
    let ghost file_limited = len > limits.max_file_bytes;
    let ghost max = limits.max_tokens as int;
    let ghost whole = lex_from(bytes@, 0, 0, None, max);
    let ghost head: Seq<DiagnosticSpan> = if file_limited {
        seq![(DiagnosticKind::FileLimit, 0, len as int)]
    } else {
        Seq::empty()
    };
    proof {
        assert(token_spans(lexer.tokens@) =~= Seq::<TokenSpan>::empty());
        assert(whole.0 =~= token_spans(lexer.tokens@) + whole.0);
        if file_limited {
            assert(diagnostic_spans(lexer.diagnostics@) =~= head);
        } else {
            assert(diagnostic_spans(lexer.diagnostics@) =~= head);
        }
    }
    let mut limited = false;
    while lexer.position < len
        invariant_except_break
            lexer.inv(),
            lexer.position < len ==> lexer.position >= 0,
            lexer.bytes@ == bytes@,
            len == bytes@.len(),
            lexer.tokens@.len() <= limits.max_tokens,
            !limited,
            whole.0 == token_spans(lexer.tokens@) + lex_from(
                bytes@,
                lexer.position as int,
                lexer.tokens@.len() as int,
                last_significant_kind(lexer.tokens@),
                max,
            ).0,
            head + whole.1 == diagnostic_spans(lexer.diagnostics@) + lex_from(
                bytes@,
                lexer.position as int,
                lexer.tokens@.len() as int,
                last_significant_kind(lexer.tokens@),
                max,
            ).1,
        invariant
            lexer.bytes@ == bytes@,
            len == bytes@.len(),
            len <= u32::MAX,
            max == limits.max_tokens as int,
            whole == lex_from(bytes@, 0, 0, None, max),
            file_limited == (len > limits.max_file_bytes),
            head == (if file_limited {
                seq![(DiagnosticKind::FileLimit, 0, len as int)]
            } else {
                Seq::<DiagnosticSpan>::empty()
            }),
            file_limited == (lexer.diagnostics@.len() > 0 && diagnostic_is(
                lexer.diagnostics@[0],
                DiagnosticKind::FileLimit,
                0,
                len as int,
            )),
            forall|i: int|
                (if file_limited {
                    1int
                } else {
                    0int
                }) <= i < lexer.diagnostics@.len() - (if limited {
                    1int
                } else {
                    0int
                }) ==> is_scan_diagnostic(#[trigger] lexer.diagnostics@[i].spec_kind()),
        ensures
            lexer.inv() || limited,
            limited ==> {
                &&& lexer.position == len
                &&& tiles(lexer.tokens@, len as int)
                &&& diagnostics_in_bounds(lexer.diagnostics@, len as int)
                &&& lexer.tokens@.len() == limits.max_tokens + 1
                &&& lexer.tokens@.last().spec_kind() == TokenKind::Invalid
                &&& lexer.diagnostics@.len() > 0
                &&& diagnostic_is(
                    lexer.diagnostics@.last(),
                    DiagnosticKind::TokenLimit,
                    lexer.tokens@.last().spec_start(),
                    len as int,
                )
            },
            !limited ==> lexer.position == len && lexer.tokens@.len() <= limits.max_tokens,
            whole.0 == token_spans(lexer.tokens@),
            head + whole.1 == diagnostic_spans(lexer.diagnostics@),
        decreases len - lexer.position,
    {
        let at_limit = lexer.tokens.len() >= limits.max_tokens;
        if at_limit {
            let start = lexer.position;
            let ghost before = lexer;
            lexer.position = len;
            lexer.push(TokenKind::Invalid, start, len);
            lexer.diagnostic(DiagnosticKind::TokenLimit, start, len);
            limited = true;
            proof {
                let rest = lex_from(
                    bytes@,
                    start as int,
                    before.tokens@.len() as int,
                    last_significant_kind(before.tokens@),
                    max,
                );
                assert(start < len);
                assert(before.tokens@.len() >= max);
                assert(rest == (
                    seq![(TokenKind::Invalid, start as int, len as int)],
                    seq![(DiagnosticKind::TokenLimit, start as int, len as int)],
                ));
                assert(whole.0 =~= token_spans(lexer.tokens@));
                assert(head + whole.1 =~= diagnostic_spans(lexer.diagnostics@));
                let toks = lexer.tokens@;
                let old_toks = before.tokens@;
                assert(toks.drop_last() == old_toks);
                assert forall|i: int| 0 <= i < toks.len() implies #[trigger] toks[i].spec_start()
                    < toks[i].spec_end() by {
                    if i < old_toks.len() {
                        assert(toks[i] == old_toks[i]);
                    }
                }
                assert forall|i: int| 0 <= i < toks.len() implies #[trigger] toks[i].spec_kind()
                    != TokenKind::Eof by {
                    if i < old_toks.len() {
                        assert(toks[i] == old_toks[i]);
                    }
                }
                assert forall|i: int| 0 <= i < toks.len() - 1 implies #[trigger] toks[i].spec_end()
                    == toks[i + 1].spec_start() by {
                    assert(toks[i] == old_toks[i]);
                    if i + 1 < old_toks.len() {
                        assert(toks[i + 1] == old_toks[i + 1]);
                    } else {
                        assert(old_toks.last() == toks[i]);
                    }
                }
                if old_toks.len() > 0 {
                    assert(toks[0] == old_toks[0]);
                }
                let d = lexer.diagnostics@;
                assert forall|i: int| 0 <= i < d.len() implies #[trigger] d[i].spec_range().spec_end()
                    <= len by {
                    if i < before.diagnostics@.len() {
                        assert(d[i] == before.diagnostics@[i]);
                        assert(before.diagnostics@[i].spec_range().spec_end() <= len);
                    }
                }
                assert forall|i: int|
                    (if file_limited {
                        1int
                    } else {
                        0int
                    }) <= i < d.len() - 1 implies is_scan_diagnostic(
                    #[trigger] d[i].spec_kind(),
                ) by {
                    assert(d[i] == before.diagnostics@[i]);
                }
                if file_limited {
                    assert(d[0] == before.diagnostics@[0]);
                } else if d.len() > 0 && diagnostic_is(d[0], DiagnosticKind::FileLimit, 0, len as int) {
                    if before.diagnostics@.len() > 0 {
                        assert(d[0] == before.diagnostics@[0]);
                        assert(is_scan_diagnostic(before.diagnostics@[0].spec_kind()));
                    }
                }
            }
            break ;
        }
        let ghost before = lexer;
        lexer.next_token();
        proof {
            let prev = last_significant_kind(before.tokens@);
            let t = scan_token(bytes@, before.position as int, prev);
            lemma_lex_step(bytes@, before.position as int, before.tokens@.len() as int, prev, max);
            let rest = lex_from(
                bytes@,
                lexer.position as int,
                lexer.tokens@.len() as int,
                last_significant_kind(lexer.tokens@),
                max,
            );
            assert(whole.0 =~= token_spans(lexer.tokens@) + rest.0);
            assert(head + whole.1 =~= diagnostic_spans(lexer.diagnostics@) + rest.1);
            let d = lexer.diagnostics@;
            assert forall|i: int|
                (if file_limited {
                    1int
                } else {
                    0int
                }) <= i < d.len() implies is_scan_diagnostic(#[trigger] d[i].spec_kind()) by {
                if i < before.diagnostics@.len() {
                    assert(d[i] == before.diagnostics@[i]);
                }
            }
            if before.diagnostics@.len() > 0 {
                assert(d[0] == before.diagnostics@[0]);
            } else if d.len() > 0 {
                assert(is_scan_diagnostic(d[0].spec_kind()));
            }
        }
    }
    let ghost body = lexer.tokens@;
    let ghost diags_before_eof = lexer.diagnostics@;
    lexer.push(TokenKind::Eof, len, len);
    proof {
        assert(lexer.tokens@.drop_last() =~= body);
        assert forall|i: int| 0 <= i < lexer.tokens@.len() - 1 implies #[trigger] lexer.tokens@[i].spec_kind()
            != TokenKind::Eof by {
            assert(lexer.tokens@[i] == body[i]);
        }
    }
    let r = Lexed { tokens: lexer.tokens, diagnostics: lexer.diagnostics };
    proof {
        let toks = r.tokens@;
        assert(toks.drop_last() == body);
        let d = r.diagnostics@;
        assert(d == diags_before_eof);
        assert forall|i: int|
            0 < i < d.len() implies #[trigger] d[i].spec_kind() != DiagnosticKind::FileLimit by {
            if limited && i == d.len() - 1 {
            } else {
                assert(is_scan_diagnostic(d[i].spec_kind()) || (i == 0));
            }
        }
        assert forall|i: int|
            0 <= i < d.len() && #[trigger] d[i].spec_kind() == DiagnosticKind::TokenLimit implies toks.len()
            - 1 > limits.max_tokens && i == d.len() - 1 by {
            if !(limited && i == d.len() - 1) {
                if i == 0 && file_limited {
                } else {
                    assert(is_scan_diagnostic(d[i].spec_kind()));
                }
            }
        }
        if limited {
            assert(toks[toks.len() - 2] == body.last());
        }
        assert(token_spans(toks) =~= token_spans(body).push((TokenKind::Eof, len as int, len as int)));
    }
    r
}

proof fn lemma_push_scan_diagnostic(init: Lexer, before: Lexer, after: Lexer)
    requires
        init.scanned_to(before),
        after.bytes == before.bytes,
        after.tokens == before.tokens,
        after.position == before.position,
        after.diagnostics@.len() == before.diagnostics@.len() + 1,
        after.diagnostics@.drop_last() == before.diagnostics@,
        is_scan_diagnostic(after.diagnostics@.last().spec_kind()),
        after.diagnostics@.last().spec_range().spec_end() <= after.bytes@.len(),
    ensures
        init.scanned_to(after),
{
    assert forall|i: int| 0 <= i < init.diagnostics@.len() implies #[trigger] after.diagnostics@[i]
        == init.diagnostics@[i] by {
        assert(after.diagnostics@[i] == before.diagnostics@[i]);
    }
    assert forall|i: int| init.diagnostics@.len() <= i < after.diagnostics@.len() implies is_scan_diagnostic(
        #[trigger] after.diagnostics@[i].spec_kind(),
    ) && after.diagnostics@[i].spec_range().spec_end() <= after.bytes@.len() by {
        if i < before.diagnostics@.len() {
            assert(after.diagnostics@[i] == before.diagnostics@[i]);
        }
    }
}

/// `t` has kind `kind` and covers `[start, end)`.
pub open spec fn token_is(t: Token, kind: TokenKind, start: int, end: int) -> bool {
    t.spec_kind() == kind && t.spec_start() == start && t.spec_end() == end
}

/// `d` has kind `kind` and covers `[start, end)`.
pub open spec fn diagnostic_is(d: Diagnostic, kind: DiagnosticKind, start: int, end: int) -> bool {
    d.spec_kind() == kind && d.spec_range().spec_start() == start && d.spec_range().spec_end() == end
}

} // verus!


verus! {

/// The names MLIR gives its builtin floating-point types, spelled out as text:
/// `bf16`, `f16`, `f32`, `f64`, `f80`, `f128`, `tf32` and the small-float
/// families `f8E4M3` ... `f6E3M2FN`.
pub open spec fn builtin_float_type_names() -> Seq<Seq<u8>> {
    seq![
        seq!['b' as u8, 'f' as u8, '1' as u8, '6' as u8],
        seq!['f' as u8, '1' as u8, '6' as u8],
        seq!['f' as u8, '3' as u8, '2' as u8],
        seq!['f' as u8, '6' as u8, '4' as u8],
        seq!['f' as u8, '8' as u8, '0' as u8],
        seq!['f' as u8, '1' as u8, '2' as u8, '8' as u8],
        seq!['t' as u8, 'f' as u8, '3' as u8, '2' as u8],
        seq!['f' as u8, '8' as u8, 'E' as u8, '4' as u8, 'M' as u8, '3' as u8],
        seq!['f' as u8, '8' as u8, 'E' as u8, '5' as u8, 'M' as u8, '2' as u8],
        seq!['f' as u8, '8' as u8, 'E' as u8, '4' as u8, 'M' as u8, '3' as u8, 'F' as u8, 'N' as u8],
        seq!['f' as u8, '8' as u8, 'E' as u8, '5' as u8, 'M' as u8, '2' as u8, 'F' as u8, 'N' as u8, 'U' as u8, 'Z' as u8],
        seq!['f' as u8, '8' as u8, 'E' as u8, '4' as u8, 'M' as u8, '3' as u8, 'F' as u8, 'N' as u8, 'U' as u8, 'Z' as u8],
        seq!['f' as u8, '8' as u8, 'E' as u8, '4' as u8, 'M' as u8, '3' as u8, 'B' as u8, '1' as u8, '1' as u8, 'F' as u8, 'N' as u8, 'U' as u8, 'Z' as u8],
        seq!['f' as u8, '8' as u8, 'E' as u8, '3' as u8, 'M' as u8, '4' as u8],
        seq!['f' as u8, '8' as u8, 'E' as u8, '8' as u8, 'M' as u8, '0' as u8, 'F' as u8, 'N' as u8, 'U' as u8],
        seq!['f' as u8, '4' as u8, 'E' as u8, '2' as u8, 'M' as u8, '1' as u8, 'F' as u8, 'N' as u8],
        seq!['f' as u8, '6' as u8, 'E' as u8, '2' as u8, 'M' as u8, '3' as u8, 'F' as u8, 'N' as u8],
        seq!['f' as u8, '6' as u8, 'E' as u8, '3' as u8, 'M' as u8, '2' as u8, 'F' as u8, 'N' as u8],
    ]
}

/// A word that stands alone in the input is scanned as one token of the word's
/// kind, followed by the end-of-input token.
proof fn lemma_lone_bare_word(w: Seq<u8>, max_file_bytes: int, max_tokens: int)
    requires
        w.len() > 0,
        spec_is_bare_start(w[0]),
        forall|k: int| 1 <= k < w.len() ==> spec_is_bare_continue(#[trigger] w[k]),
        max_tokens >= 1,
    ensures
        spec_lex(w, max_file_bytes, max_tokens).0 == seq![
            (bare_word_kind(w, 0, w.len() as int), 0int, w.len() as int),
            (TokenKind::Eof, w.len() as int, w.len() as int),
        ],
{
    let n = w.len() as int;
    assert forall|k: int| 1 <= k < n implies class_holds(ByteClass::BareContinue, #[trigger] w[k]) by {
        assert(spec_is_bare_continue(w[k]));
    }
    lemma_run_end_unique(w, 1, ByteClass::BareContinue, n);
    let t = scan_token(w, 0, None);
    assert(t == (bare_word_kind(w, 0, n), n, Seq::<DiagnosticSpan>::empty()));
    lemma_lex_step(w, 0, 0, None, max_tokens);
    assert(lex_from(w, n, 1, next_significant(None, t.0), max_tokens).0 == Seq::<TokenSpan>::empty());
    assert(spec_lex(w, max_file_bytes, max_tokens).0 =~= seq![
        (bare_word_kind(w, 0, n), 0int, n),
        (TokenKind::Eof, n, n),
    ]);
}

/// Every builtin floating-point type name, standing alone, lexes to exactly one
/// `FloatType` token covering the whole name, then the end-of-input token.
pub proof fn lemma_builtin_float_type_names_lex(
    r: Lexed,
    i: int,
    max_file_bytes: int,
    max_tokens: int,
)
    requires
        0 <= i < builtin_float_type_names().len(),
        max_tokens >= 1,
        lexes_as(r, builtin_float_type_names()[i], max_file_bytes, max_tokens),
    ensures
        r.spec_tokens().len() == 2,
        token_is(r.spec_tokens()[0], TokenKind::FloatType, 0, builtin_float_type_names()[i].len() as int),
        r.spec_tokens()[1].spec_kind() == TokenKind::Eof,
{
    let w = builtin_float_type_names()[i];
    assert(spec_is_float_type(w) && !spec_is_integer_type(w) && w.len() > 0 && spec_is_bare_start(w[0])
        && forall|k: int| 1 <= k < w.len() ==> spec_is_bare_continue(#[trigger] w[k])) by {
        if i == 0 {
        } else if i == 1 {
        } else if i == 2 {
        } else if i == 3 {
        } else if i == 4 {
        } else if i == 5 {
        } else if i == 6 {
        } else if i == 7 {
        } else if i == 8 {
        } else if i == 9 {
        } else if i == 10 {
        } else if i == 11 {
        } else if i == 12 {
        } else if i == 13 {
        } else if i == 14 {
        } else if i == 15 {
        } else if i == 16 {
        } else if i == 17 {
        }
    }
    assert(w.subrange(0, w.len() as int) =~= w);
    lemma_lone_bare_word(w, max_file_bytes, max_tokens);
    let toks = r.spec_tokens();
    assert(token_spans(toks).len() == 2);
    assert(token_span(toks[0]) == token_spans(toks)[0]);
    assert(token_span(toks[1]) == token_spans(toks)[1]);
}


/// The reserved words of MLIR's syntax, spelled out as text, each with the
/// token kind it has: `index` and the keywords of locations, types,
/// attributes and affine expressions.
pub open spec fn reserved_words() -> Seq<(Seq<u8>, TokenKind)> {
    seq![
        (seq!['i' as u8, 'n' as u8, 'd' as u8, 'e' as u8, 'x' as u8], TokenKind::IndexType),
        (seq!['l' as u8, 'o' as u8, 'c' as u8], TokenKind::Loc),
        (seq!['u' as u8, 'n' as u8, 'k' as u8, 'n' as u8, 'o' as u8, 'w' as u8, 'n' as u8], TokenKind::Unknown),
        (seq!['c' as u8, 'a' as u8, 'l' as u8, 'l' as u8, 's' as u8, 'i' as u8, 't' as u8, 'e' as u8], TokenKind::CallSite),
        (seq!['f' as u8, 'u' as u8, 's' as u8, 'e' as u8, 'd' as u8], TokenKind::Fused),
        (seq!['t' as u8, 'u' as u8, 'p' as u8, 'l' as u8, 'e' as u8], TokenKind::Tuple),
        (seq!['t' as u8, 'e' as u8, 'n' as u8, 's' as u8, 'o' as u8, 'r' as u8], TokenKind::Tensor),
        (seq!['v' as u8, 'e' as u8, 'c' as u8, 't' as u8, 'o' as u8, 'r' as u8], TokenKind::Vector),
        (seq!['m' as u8, 'e' as u8, 'm' as u8, 'r' as u8, 'e' as u8, 'f' as u8], TokenKind::MemRef),
        (seq!['a' as u8, 'f' as u8, 'f' as u8, 'i' as u8, 'n' as u8, 'e' as u8, '_' as u8, 'm' as u8, 'a' as u8, 'p' as u8], TokenKind::AffineMap),
        (seq!['a' as u8, 'f' as u8, 'f' as u8, 'i' as u8, 'n' as u8, 'e' as u8, '_' as u8, 's' as u8, 'e' as u8, 't' as u8], TokenKind::AffineSet),
        (seq!['m' as u8, 'o' as u8, 'd' as u8], TokenKind::Mod),
        (seq!['f' as u8, 'l' as u8, 'o' as u8, 'o' as u8, 'r' as u8, 'd' as u8, 'i' as u8, 'v' as u8], TokenKind::FloorDiv),
        (seq!['c' as u8, 'e' as u8, 'i' as u8, 'l' as u8, 'd' as u8, 'i' as u8, 'v' as u8], TokenKind::CeilDiv),
        (seq!['s' as u8, 't' as u8, 'r' as u8, 'i' as u8, 'd' as u8, 'e' as u8, 'd' as u8], TokenKind::Strided),
        (seq!['d' as u8, 'e' as u8, 'n' as u8, 's' as u8, 'e' as u8], TokenKind::Dense),
        (seq!['s' as u8, 'p' as u8, 'a' as u8, 'r' as u8, 's' as u8, 'e' as u8], TokenKind::Sparse),
        (seq!['d' as u8, 'e' as u8, 'n' as u8, 's' as u8, 'e' as u8, '_' as u8, 'r' as u8, 'e' as u8, 's' as u8, 'o' as u8, 'u' as u8, 'r' as u8, 'c' as u8, 'e' as u8], TokenKind::DenseResource),
    ]
}

/// Every reserved word, standing alone, lexes to exactly one token of its own
/// kind covering the whole word, then the end-of-input token.
pub proof fn lemma_reserved_words_lex(r: Lexed, i: int, max_file_bytes: int, max_tokens: int)
    requires
        0 <= i < reserved_words().len(),
        max_tokens >= 1,
        lexes_as(r, reserved_words()[i].0, max_file_bytes, max_tokens),
    ensures
        r.spec_tokens().len() == 2,
        token_is(r.spec_tokens()[0], reserved_words()[i].1, 0, reserved_words()[i].0.len() as int),
        r.spec_tokens()[1].spec_kind() == TokenKind::Eof,
{
    let w = reserved_words()[i].0;
    assert(bare_word_kind(w, 0, w.len() as int) == reserved_words()[i].1 && w.len() > 0 && spec_is_bare_start(w[0])
        && forall|k: int| 1 <= k < w.len() ==> spec_is_bare_continue(#[trigger] w[k])) by {
        assert(w.subrange(0, w.len() as int) =~= w);
        assert(w.skip(1)[0] == w[1]);
        if i == 0 {
        } else if i == 1 {
        } else if i == 2 {
        } else if i == 3 {
        } else if i == 4 {
        } else if i == 5 {
        } else if i == 6 {
        } else if i == 7 {
        } else if i == 8 {
        } else if i == 9 {
        } else if i == 10 {
        } else if i == 11 {
        } else if i == 12 {
        } else if i == 13 {
        } else if i == 14 {
        } else if i == 15 {
        } else if i == 16 {
        } else if i == 17 {
        }
    }
    lemma_lone_bare_word(w, max_file_bytes, max_tokens);
    let toks = r.spec_tokens();
    assert(token_spans(toks).len() == 2);
    assert(token_span(toks[0]) == token_spans(toks)[0]);
    assert(token_span(toks[1]) == token_spans(toks)[1]);
}

/// An integer type, `i`, `si` or `ui` then a decimal width, standing alone,
/// lexes to exactly one `IntType` token covering it, then the end-of-input token.
pub proof fn lemma_integer_type_words_lex(
    r: Lexed,
    signedness: Seq<u8>,
    width: Seq<u8>,
    max_file_bytes: int,
    max_tokens: int,
)
    requires
        signedness == seq!['i' as u8] || signedness == seq!['s' as u8, 'i' as u8] || signedness == seq![
            'u' as u8,
            'i' as u8,
        ],
        width.len() > 0,
        forall|k: int| 0 <= k < width.len() ==> '0' as u8 <= #[trigger] width[k] <= '9' as u8,
        max_tokens >= 1,
        lexes_as(r, signedness + width, max_file_bytes, max_tokens),
    ensures
        r.spec_tokens().len() == 2,
        token_is(r.spec_tokens()[0], TokenKind::IntType, 0, (signedness.len() + width.len()) as int),
        r.spec_tokens()[1].spec_kind() == TokenKind::Eof,
{
    let w = signedness + width;
    let p = signedness.len() as int;
    assert forall|k: int| 1 <= k < w.len() implies spec_is_bare_continue(#[trigger] w[k]) by {
        if k >= p {
            assert(w[k] == width[k - p]);
        }
    }
    assert(w.skip(p) =~= width);
    assert(w.subrange(0, w.len() as int) =~= w);
    if p == 1 {
        assert(w.skip(1) =~= width);
    } else {
        assert(w.skip(2) =~= width);
    }
    assert(spec_is_integer_type(w));
    lemma_lone_bare_word(w, max_file_bytes, max_tokens);
    let toks = r.spec_tokens();
    assert(token_spans(toks).len() == 2);
    assert(token_span(toks[0]) == token_spans(toks)[0]);
    assert(token_span(toks[1]) == token_spans(toks)[1]);
}

} // verus!
