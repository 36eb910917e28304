//! Source-aware layout formatting of parsed MLIR text: operations start their
//! own lines, regions indent their contents, and only whitespace changes.

use vstd::prelude::*;
use crate::lexer::{lemma_tiles_ordered, lossless, spec_is_whitespace, whitespace_tokens_blank, Token, TokenKind};
use crate::parser::{ParseFileError, ParsedFile};
use crate::representation::{NodeId, SyntaxKind, SyntaxTree};
use crate::source::TextRange;
use vstd::slice::slice_subrange;

verus! {

/// Where operation spellings come from before layout.
#[derive(Clone, Copy, Debug, PartialEq, Eq, Structural)]
pub enum AssemblyStyle {
    /// The custom or generic spelling that the source holds.
    Source,
    /// MLIR's quoted generic form, regenerated from semantics.
    Generic,
}

impl Default for AssemblyStyle {
    fn default() -> (r: Self)
        ensures
            r == AssemblyStyle::Source,
    {
        AssemblyStyle::Source
    }
}

/// Options of source-aware formatting.
#[derive(Clone, Copy, Debug, PartialEq, Eq, Structural)]
pub struct FormatOptions {
    pub assembly: AssemblyStyle,
    /// Lines break after a comma when the next token would pass this column; 0
    /// never breaks them.
    pub line_width: usize,
    /// Spaces per level of region nesting.
    pub indent_width: usize,
}

impl Default for FormatOptions {
    fn default() -> (r: Self)
        ensures
            r == (FormatOptions { assembly: AssemblyStyle::Source, line_width: 100, indent_width: 2 }),
    {
        FormatOptions { assembly: AssemblyStyle::Source, line_width: 100, indent_width: 2 }
    }
}

/// The widest indentation that formatting accepts.
pub const MAX_INDENT_WIDTH: usize = 256;

/// Why formatting failed.
#[derive(Debug)]
pub enum FormatError {
    /// The file holds no syntax to lay out.
    MissingSyntax,
    /// Generic assembly needs a semantic document.
    GenericAssemblyRequiresSemantics,
    /// The indent width is outside `1..=MAX_INDENT_WIDTH`.
    InvalidIndentWidth(usize),
    /// Reparsing failed.
    Parse(ParseFileError),
}

/// Whether the options can be used: an indent width of 1 to `MAX_INDENT_WIDTH`.
pub open spec fn valid_options(options: FormatOptions) -> bool {
    1 <= options.indent_width <= MAX_INDENT_WIDTH
}

fn validate_options(options: FormatOptions) -> (r: Result<(), FormatError>)
    ensures
        r is Ok <==> valid_options(options),
        r matches Err(e) ==> e matches FormatError::InvalidIndentWidth(w) && w == options.indent_width,
{
    if !(1 <= options.indent_width && options.indent_width <= MAX_INDENT_WIDTH) {
        return Err(FormatError::InvalidIndentWidth(options.indent_width));
    }
    Ok(())
}

/// The bytes of `s` that are not whitespace, in order.
pub open spec fn without_whitespace(s: Seq<u8>) -> Seq<u8>
    decreases s.len(),
{
    if s.len() == 0 {
        seq![]
    } else {
        without_whitespace(s.drop_last()) + if spec_is_whitespace(s.last()) {
            seq![]
        } else {
            seq![s.last()]
        }
    }
}

/// Dropping whitespace distributes over concatenation.
pub proof fn lemma_without_whitespace_concat(a: Seq<u8>, b: Seq<u8>)
    ensures
        without_whitespace(a + b) == without_whitespace(a) + without_whitespace(b),
    decreases b.len(),
{
    if b.len() == 0 {
        assert(a + b =~= a);
        assert(without_whitespace(b) =~= seq![]);
        assert(without_whitespace(a) + without_whitespace(b) =~= without_whitespace(a));
    } else {
        lemma_without_whitespace_concat(a, b.drop_last());
        assert((a + b).drop_last() =~= a + b.drop_last());
        assert((a + b).last() == b.last());
        assert(without_whitespace(a) + without_whitespace(b) =~= without_whitespace(a)
            + without_whitespace(b.drop_last()) + (if spec_is_whitespace(b.last()) {
            seq![]
        } else {
            seq![b.last()]
        }));
    }
}

/// Whitespace alone leaves nothing.
pub proof fn lemma_blank_vanishes(s: Seq<u8>)
    requires
        forall|i: int| 0 <= i < s.len() ==> spec_is_whitespace(#[trigger] s[i]),
    ensures
        without_whitespace(s) == Seq::<u8>::empty(),
    decreases s.len(),
{
    if s.len() > 0 {
        lemma_blank_vanishes(s.drop_last());
        assert(spec_is_whitespace(s[s.len() - 1]));
    }
}

/// Dropping a whitespace prefix or suffix leaves the rest's non-whitespace bytes.
proof fn lemma_trimmed(s: Seq<u8>, lo: int, hi: int)
    requires
        0 <= lo <= hi <= s.len(),
        forall|i: int| 0 <= i < lo ==> spec_is_whitespace(#[trigger] s[i]),
        forall|i: int| hi <= i < s.len() ==> spec_is_whitespace(#[trigger] s[i]),
    ensures
        without_whitespace(s.subrange(lo, hi)) == without_whitespace(s),
{
    let pre = s.subrange(0, lo);
    let mid = s.subrange(lo, hi);
    let post = s.subrange(hi, s.len() as int);
    assert(s =~= pre + mid + post);
    lemma_without_whitespace_concat(pre + mid, post);
    lemma_without_whitespace_concat(pre, mid);
    lemma_blank_vanishes(pre);
    lemma_blank_vanishes(post);
    assert(without_whitespace(pre) + without_whitespace(mid) =~= without_whitespace(mid));
    assert(without_whitespace(pre + mid) + without_whitespace(post) =~= without_whitespace(pre + mid));
}

/// `[lo, hi)` of `bytes` without leading and trailing ASCII whitespace.
fn trim_ascii_whitespace(bytes: &[u8]) -> (r: (usize, usize))
    ensures
        r.0 <= r.1 <= bytes@.len(),
        r.0 == skip_ws(bytes@, 0),
        r.1 == back_ws(bytes@, r.0 as int, bytes@.len() as int),
        forall|i: int| 0 <= i < r.0 ==> spec_is_whitespace(#[trigger] bytes@[i]),
        forall|i: int| r.1 <= i < bytes@.len() ==> spec_is_whitespace(#[trigger] bytes@[i]),
{
    let mut lo: usize = 0;
    while lo < bytes.len() && is_ascii_whitespace(bytes[lo])
        invariant
            lo <= bytes@.len(),
            skip_ws(bytes@, 0) == skip_ws(bytes@, lo as int),
            forall|i: int| 0 <= i < lo ==> spec_is_whitespace(#[trigger] bytes@[i]),
        decreases bytes@.len() - lo,
    {
        lo = lo + 1;
    }
    let mut hi: usize = bytes.len();
    while hi > lo && is_ascii_whitespace(bytes[hi - 1])
        invariant
            lo <= hi <= bytes@.len(),
            lo == skip_ws(bytes@, 0),
            back_ws(bytes@, lo as int, bytes@.len() as int) == back_ws(bytes@, lo as int, hi as int),
            forall|i: int| hi <= i < bytes@.len() ==> spec_is_whitespace(#[trigger] bytes@[i]),
        decreases hi,
    {
        hi = hi - 1;
    }
    (lo, hi)
}

/// How many leading spaces, tabs and carriage returns `bytes` has.
fn horizontal_indent(bytes: &[u8]) -> (r: usize)
    ensures
        r <= bytes@.len(),
        r == skip_hspace(bytes@, 0),
        forall|i: int| 0 <= i < r ==> spec_is_whitespace(#[trigger] bytes@[i]),
{
    let mut lo: usize = 0;
    while lo < bytes.len() && (bytes[lo] == 0x20 || bytes[lo] == 0x09 || bytes[lo] == 0x0d)
        invariant
            lo <= bytes@.len(),
            skip_hspace(bytes@, 0) == skip_hspace(bytes@, lo as int),
            forall|i: int| 0 <= i < lo ==> spec_is_whitespace(#[trigger] bytes@[i]),
        decreases bytes@.len() - lo,
    {
        lo = lo + 1;
    }
    lo
}

fn is_ascii_whitespace(b: u8) -> (r: bool)
    ensures
        r == spec_is_whitespace(b),
{
    b == 0x20 || b == 0x09 || b == 0x0a || b == 0x0c || b == 0x0d
}

fn opens_delimiter(kind: TokenKind) -> (r: bool)
    ensures
        r == opens_bracket(kind),
{
    match kind {
        TokenKind::LParen | TokenKind::LBracket | TokenKind::Less => true,
        _ => false,
    }
}

fn closes_delimiter(kind: TokenKind) -> (r: bool)
    ensures
        r == closes_bracket(kind),
{
    match kind {
        TokenKind::RParen | TokenKind::RBracket | TokenKind::RBrace => true,
        _ => false,
    }
}

fn binary_operator(kind: TokenKind) -> (r: bool)
    ensures
        r == affine_operator(kind),
{
    match kind {
        TokenKind::Plus | TokenKind::Star | TokenKind::Slash | TokenKind::VerticalBar
        | TokenKind::FloorDiv | TokenKind::CeilDiv | TokenKind::Mod => true,
        _ => false,
    }
}

fn word_like(kind: TokenKind) -> (r: bool)
    ensures
        r == wordish(kind),
{
    match kind {
        TokenKind::LParen | TokenKind::RParen | TokenKind::LBrace | TokenKind::RBrace
        | TokenKind::LBracket | TokenKind::RBracket | TokenKind::Less | TokenKind::Greater
        | TokenKind::Colon | TokenKind::Comma | TokenKind::Equal | TokenKind::Plus
        | TokenKind::Star | TokenKind::VerticalBar | TokenKind::Minus | TokenKind::Slash
        | TokenKind::Arrow | TokenKind::Question | TokenKind::X => false,
        _ => true,
    }
}

fn previous_is(previous: Option<TokenKind>, kind: TokenKind) -> (r: bool)
    ensures
        r == (previous == Some(kind)),
{
    match previous {
        Some(p) => p == kind,
        None => false,
    }
}

/// Whether a token of `kind` opens a bracket that the next token hugs.
pub open spec fn opens_bracket(kind: TokenKind) -> bool {
    kind == TokenKind::LParen || kind == TokenKind::LBracket || kind == TokenKind::Less
}

/// Whether a token of `kind` closes a bracket that hugs the token before it.
pub open spec fn closes_bracket(kind: TokenKind) -> bool {
    kind == TokenKind::RParen || kind == TokenKind::RBracket || kind == TokenKind::RBrace
}

/// Whether a token of `kind` is an operator of affine arithmetic.
pub open spec fn affine_operator(kind: TokenKind) -> bool {
    kind == TokenKind::Plus || kind == TokenKind::Star || kind == TokenKind::Slash || kind
        == TokenKind::VerticalBar || kind == TokenKind::FloorDiv || kind == TokenKind::CeilDiv
        || kind == TokenKind::Mod
}

/// Whether two tokens of word-like kinds need a space between them.
pub open spec fn wordish(kind: TokenKind) -> bool {
    !(kind == TokenKind::LParen || kind == TokenKind::RParen || kind == TokenKind::LBrace || kind
        == TokenKind::RBrace || kind == TokenKind::LBracket || kind == TokenKind::RBracket || kind
        == TokenKind::Less || kind == TokenKind::Greater || kind == TokenKind::Colon || kind
        == TokenKind::Comma || kind == TokenKind::Equal || kind == TokenKind::Plus || kind
        == TokenKind::Star || kind == TokenKind::VerticalBar || kind == TokenKind::Minus || kind
        == TokenKind::Slash || kind == TokenKind::Arrow || kind == TokenKind::Question || kind
        == TokenKind::X)
}

/// Text being laid out: what was written, the column, whether a line was just
/// started, the indentation of the current construct and of its first line,
/// whether a space or a break after a comma is pending, and the kind of the
/// last token written.
pub struct Pen {
    pub out: Seq<u8>,
    pub column: int,
    pub line_start: bool,
    pub indent: int,
    pub base_indent: int,
    pub pending_space: bool,
    pub comma_break: bool,
    pub previous: Option<TokenKind>,
}

/// Nothing written yet.
pub open spec fn fresh_pen() -> Pen {
    Pen {
        out: seq![],
        column: 0,
        line_start: true,
        indent: 0,
        base_indent: 0,
        pending_space: false,
        comma_break: false,
        previous: None,
    }
}

/// One more byte, whitespace, that moves nothing else.
pub open spec fn pen_push(p: Pen, b: u8) -> Pen {
    Pen { out: p.out.push(b), ..p }
}

/// A line break.
pub open spec fn pen_newline(p: Pen) -> Pen {
    Pen { out: p.out.push(0x0a), column: 0, line_start: true, ..p }
}

/// A space, unless at the start of a line.
pub open spec fn pen_space(p: Pen) -> Pen {
    if !p.line_start && p.column > 0 {
        Pen { out: p.out.push(0x20), column: p.column + 1, ..p }
    } else {
        p
    }
}

/// `n` spaces.
pub open spec fn spaces(n: int) -> Seq<u8> {
    Seq::new(n as nat, |_i: int| 0x20u8)
}

/// The spaces that indent a line of the current construct: its depth times the
/// indent width, or as many as a `usize` holds.
pub open spec fn indent_spaces(p: Pen, options: FormatOptions) -> int {
    if p.indent * options.indent_width <= usize::MAX {
        p.indent * options.indent_width
    } else {
        usize::MAX as int
    }
}

/// Where the last line break of `b` is.
pub open spec fn last_newline(b: Seq<u8>) -> Option<int>
    decreases b.len(),
{
    if b.len() == 0 {
        None
    } else if b.last() == 0x0a {
        Some(b.len() - 1)
    } else {
        last_newline(b.drop_last())
    }
}

/// `b` as it is, indented first at the start of a line.
pub open spec fn pen_bytes(p: Pen, options: FormatOptions, b: Seq<u8>) -> Pen {
    let q = if p.line_start {
        Pen {
            out: p.out + spaces(indent_spaces(p, options)),
            column: indent_spaces(p, options),
            line_start: false,
            ..p
        }
    } else {
        p
    };
    match last_newline(b) {
        Some(k) => Pen { out: q.out + b, column: b.len() - k - 1, line_start: b.last() == 0x0a, ..q },
        None => Pen { out: q.out + b, column: q.column + b.len(), ..q },
    }
}

/// The start of a construct indented `indent` deep on a line of its own, after
/// an empty line when `blank`.
pub open spec fn pen_construct(p: Pen, indent: int, blank: bool) -> Pen {
    let q = if !p.line_start {
        pen_newline(p)
    } else {
        p
    };
    let q = if blank && q.column == 0 {
        pen_push(q, 0x0a)
    } else {
        q
    };
    Pen { indent, base_indent: indent, pending_space: false, comma_break: false, previous: None, ..q }
}

/// A new line indented `indent` deep.
pub open spec fn pen_hard_line(p: Pen, indent: int) -> Pen {
    let q = if !p.line_start {
        pen_newline(p)
    } else {
        p
    };
    Pen { indent, base_indent: indent, pending_space: false, comma_break: false, previous: None, ..q }
}

/// A space owed before what comes next when the source had one.
pub open spec fn pen_prepare_space(p: Pen, had_space: bool) -> Pen {
    Pen { pending_space: p.pending_space || had_space, ..p }
}

/// A comment, spaced from the line's text when the source spaced it, then the
/// end of its line.
pub open spec fn pen_comment(p: Pen, options: FormatOptions, b: Seq<u8>, had_space: bool) -> Pen {
    let q = if !p.line_start && had_space {
        pen_space(p)
    } else {
        p
    };
    Pen { previous: None, ..pen_newline(pen_bytes(q, options, b)) }
}

/// A token of `kind` spelled `b`: a space before it where its kind, the token
/// before it, the source or the construct call for one, unless its kind or its
/// neighbour forbids one; a break after a pending comma when it would not fit
/// the line width, continuing one level deeper.
pub open spec fn pen_token(
    p: Pen,
    options: FormatOptions,
    b: Seq<u8>,
    kind: TokenKind,
    had_space: bool,
    region_open: bool,
    force_space: bool,
    comparison: bool,
) -> Pen {
    let previous = p.previous;
    let composite_equal = kind == TokenKind::Equal && (previous == Some(TokenKind::Equal)
        || previous == Some(TokenKind::Less) || previous == Some(TokenKind::Greater)) && !had_space;
    let result_number = kind == TokenKind::HashIdentifier && previous == Some(
        TokenKind::PercentIdentifier,
    ) && !had_space;
    let force_before = force_space || (kind == TokenKind::Equal && !composite_equal) || kind
        == TokenKind::Arrow || region_open || comparison || affine_operator(kind);
    let previous_opens = match previous {
        Some(k) => opens_bracket(k),
        None => false,
    };
    let suppress = closes_bracket(kind) || kind == TokenKind::Comma || (kind == TokenKind::Greater
        && !comparison) || (kind == TokenKind::Colon && !force_space) || previous_opens || previous
        == Some(TokenKind::Less) || kind == TokenKind::X || previous == Some(TokenKind::X)
        || composite_equal || result_number;
    let previous_word = match previous {
        Some(k) => wordish(k),
        None => false,
    };
    let wants_space = !suppress && (force_before || p.pending_space || had_space || (previous_word
        && wordish(kind)));
    let needed = p.column + (if wants_space {
        1int
    } else {
        0int
    }) + b.len();
    let q = if p.comma_break && options.line_width > 0 && needed > options.line_width {
        Pen {
            indent: if p.base_indent < usize::MAX {
                p.base_indent + 1
            } else {
                p.base_indent
            },
            ..pen_newline(p)
        }
    } else if wants_space {
        pen_space(p)
    } else {
        p
    };
    Pen {
        pending_space: kind == TokenKind::Comma || kind == TokenKind::Equal || kind
            == TokenKind::Arrow || (kind == TokenKind::Colon && force_space) || affine_operator(kind),
        comma_break: kind == TokenKind::Comma,
        previous: Some(kind),
        ..pen_bytes(q, options, b)
    }
}

/// A spelling kept as it is, written as one word.
pub open spec fn pen_atom(p: Pen, options: FormatOptions, b: Seq<u8>) -> Pen {
    let q = if p.pending_space {
        pen_space(p)
    } else {
        p
    };
    Pen {
        pending_space: false,
        comma_break: false,
        previous: Some(TokenKind::BareIdentifier),
        ..pen_bytes(q, options, b)
    }
}

/// Where the run of ASCII whitespace of `b` from `i` ends.
pub open spec fn skip_ws(b: Seq<u8>, i: int) -> int
    decreases b.len() - i,
{
    if 0 <= i < b.len() && spec_is_whitespace(b[i]) {
        skip_ws(b, i + 1)
    } else {
        i
    }
}

/// Where the run of ASCII whitespace of `b` that ends at `hi`, after `lo`, starts.
pub open spec fn back_ws(b: Seq<u8>, lo: int, hi: int) -> int
    decreases hi - lo,
{
    if lo < hi && hi <= b.len() && spec_is_whitespace(b[hi - 1]) {
        back_ws(b, lo, hi - 1)
    } else {
        hi
    }
}

/// Where the run of spaces, tabs and carriage returns of `b` from `i` ends.
pub open spec fn skip_hspace(b: Seq<u8>, i: int) -> int
    decreases b.len() - i,
{
    if 0 <= i < b.len() && (b[i] == 0x20 || b[i] == 0x09 || b[i] == 0x0d) {
        skip_hspace(b, i + 1)
    } else {
        i
    }
}

/// Where the line of `t` from `i` ends: at its line break or the end of `t`.
pub open spec fn line_end(t: Seq<u8>, i: int) -> int
    decreases t.len() - i,
{
    if 0 <= i < t.len() && t[i] != 0x0a {
        line_end(t, i + 1)
    } else {
        i
    }
}

/// The line of `t` from `i` ends at a line break or at the end of `t`.
pub proof fn lemma_line_end(t: Seq<u8>, i: int)
    requires
        0 <= i <= t.len(),
    ensures
        i <= line_end(t, i) <= t.len(),
        line_end(t, i) < t.len() ==> t[line_end(t, i)] == 0x0a,
        forall|k: int| i <= k < line_end(t, i) ==> #[trigger] t[k] != 0x0a,
    decreases t.len() - i,
{
    if i < t.len() && t[i] != 0x0a {
        lemma_line_end(t, i + 1);
    }
}

/// The lines of `t` from `start` on, the first as it is and each later one on a
/// new line without its own leading spaces and tabs.
pub open spec fn pen_lines(p: Pen, options: FormatOptions, t: Seq<u8>, start: int, first: bool) -> Pen
    decreases t.len() - start,
{
    if 0 <= start <= t.len() {
        let end = line_end(t, start);
        let line = t.subrange(start, end);
        let q = if first {
            p
        } else {
            pen_newline(p)
        };
        let skip = if first {
            0
        } else {
            skip_hspace(line, 0)
        };
        let q = pen_bytes(q, options, line.subrange(skip, line.len() as int));
        if end >= t.len() {
            q
        } else {
            proof {
                lemma_line_end(t, start);
            }
            pen_lines(q, options, t, end + 1, false)
        }
    } else {
        p
    }
}

/// A spelling kept as it is over several lines: trimmed of the whitespace
/// around it, each later line reindented.
pub open spec fn pen_verbatim(p: Pen, options: FormatOptions, b: Seq<u8>) -> Pen {
    let lo = skip_ws(b, 0);
    let t = b.subrange(lo, back_ws(b, lo, b.len() as int));
    Pen {
        pending_space: false,
        comma_break: false,
        previous: Some(TokenKind::BareIdentifier),
        ..pen_lines(p, options, t, 0, true)
    }
}

/// The end of the text: its last line ended.
pub open spec fn pen_finish(p: Pen) -> Pen {
    if !p.line_start {
        pen_newline(p)
    } else {
        p
    }
}

/// Writes laid-out text: it tracks the column, the indentation of the current
/// construct, and whether a space or a comma break is pending.
struct LayoutWriter {
    out: Vec<u8>,
    options: FormatOptions,
    column: usize,
    line_start: bool,
    indent: usize,
    base_indent: usize,
    pending_space: bool,
    comma_break: bool,
    previous: Option<TokenKind>,
}

/// Text that is empty or ends with a line break.
pub open spec fn ends_lines(s: Seq<u8>) -> bool {
    s.len() == 0 || s.last() == 0x0a
}

impl LayoutWriter {
    spec fn pen(self) -> Pen {
        Pen {
            out: self.out@,
            column: self.column as int,
            line_start: self.line_start,
            indent: self.indent as int,
            base_indent: self.base_indent as int,
            pending_space: self.pending_space,
            comma_break: self.comma_break,
            previous: self.previous,
        }
    }

    spec fn ok(self) -> bool {
        &&& self.column <= self.out@.len()
        &&& self.line_start ==> ends_lines(self.out@)
    }

    fn new(options: FormatOptions) -> (r: LayoutWriter)
        ensures
            r.pen() == fresh_pen(),
            r.ok(),
            r.out@ == Seq::<u8>::empty(),
            r.options == options,
    {
        LayoutWriter {
            out: Vec::new(),
            options,
            column: 0,
            line_start: true,
            indent: 0,
            base_indent: 0,
            pending_space: false,
            comma_break: false,
            previous: None,
        }
    }

    /// Appends whitespace bytes only.
    fn push_blank(&mut self, b: u8)
        requires
            spec_is_whitespace(b),
        ensures
            final(self).pen() == pen_push(old(self).pen(), b),
            final(self).out@ == old(self).out@.push(b),
            without_whitespace(final(self).out@) == without_whitespace(old(self).out@),
            final(self).column == old(self).column,
            final(self).line_start == old(self).line_start,
            final(self).indent == old(self).indent,
            final(self).base_indent == old(self).base_indent,
            final(self).options == old(self).options,
            final(self).pending_space == old(self).pending_space,
            final(self).comma_break == old(self).comma_break,
            final(self).previous == old(self).previous,
    {
        self.out.push(b);
        proof {
            assert(self.out@.drop_last() =~= old(self).out@);
        }
    }

    fn newline(&mut self)
        requires
            old(self).ok(),
        ensures
            final(self).pen() == pen_newline(old(self).pen()),
            final(self).ok(),
            without_whitespace(final(self).out@) == without_whitespace(old(self).out@),
            final(self).options == old(self).options,
            final(self).indent == old(self).indent,
            final(self).base_indent == old(self).base_indent,
            final(self).line_start,
    {
        self.push_blank(0x0a);
        self.column = 0;
        self.line_start = true;
    }

    fn write_space(&mut self)
        requires
            old(self).ok(),
        ensures
            final(self).pen() == pen_space(old(self).pen()),
            final(self).ok(),
            without_whitespace(final(self).out@) == without_whitespace(old(self).out@),
            final(self).options == old(self).options,
            final(self).indent == old(self).indent,
            final(self).base_indent == old(self).base_indent,
            final(self).line_start == old(self).line_start,
            final(self).pending_space == old(self).pending_space,
            final(self).comma_break == old(self).comma_break,
            final(self).previous == old(self).previous,
    {
        if !self.line_start && self.column > 0 {
            self.push_blank(0x20);
            let _total = self.out.len();
            self.column = self.column + 1;
        }
    }

    /// Writes `bytes`, indenting first at the start of a line.
    fn write_bytes(&mut self, bytes: &[u8])
        requires
            old(self).ok(),
        ensures
            final(self).ok(),
            final(self).pen() == pen_bytes(old(self).pen(), old(self).options, bytes@),
            without_whitespace(final(self).out@) == without_whitespace(old(self).out@) + without_whitespace(
                bytes@,
            ),
            final(self).options == old(self).options,
            final(self).indent == old(self).indent,
            final(self).base_indent == old(self).base_indent,
            final(self).pending_space == old(self).pending_space,
            final(self).comma_break == old(self).comma_break,
            final(self).previous == old(self).previous,
    {
        if self.line_start {
            let width = match self.indent.checked_mul(self.options.indent_width) {
                Some(product) => product,
                None => usize::MAX,
            };
            self.line_start = false;
            let mut written: usize = 0;
            while written < width
                invariant
                    self.ok(),
                    !self.line_start,
                    written <= width,
                    width == indent_spaces(old(self).pen(), old(self).options),
                    self.out@ == old(self).out@ + spaces(written as int),
                    self.column == old(self).column,
                    without_whitespace(self.out@) == without_whitespace(old(self).out@),
                    self.options == old(self).options,
                    self.indent == old(self).indent,
                    self.base_indent == old(self).base_indent,
                    self.pending_space == old(self).pending_space,
                    self.comma_break == old(self).comma_break,
                    self.previous == old(self).previous,
                    self.out@.len() >= old(self).out@.len() + written,
                decreases width - written,
            {
                self.push_blank(0x20);
                written = written + 1;
                proof {
                    assert(self.out@ =~= old(self).out@ + spaces(written as int));
                }
            }
            self.column = width;
        }
        let ghost q = self.pen();
        let ghost before = self.out@;
        let mut k: usize = 0;
        let mut newline_at: Option<usize> = None;
        proof {
            assert(bytes@.subrange(0, 0) =~= Seq::<u8>::empty());
        }
        while k < bytes.len()
            invariant
                k <= bytes@.len(),
                self.out@ == before + bytes@.subrange(0, k as int),
                self.column <= before.len(),
                self.column == q.column,
                !self.line_start,
                self.options == old(self).options,
                self.indent == old(self).indent,
                self.base_indent == old(self).base_indent,
                self.pending_space == old(self).pending_space,
                self.comma_break == old(self).comma_break,
                self.previous == old(self).previous,
                newline_at matches Some(p) ==> p < k,
                match newline_at {
                    Some(p) => last_newline(bytes@.subrange(0, k as int)) == Some(p as int),
                    None => last_newline(bytes@.subrange(0, k as int)) is None,
                },
            decreases bytes@.len() - k,
        {
            if bytes[k] == 0x0a {
                newline_at = Some(k);
            }
            self.out.push(bytes[k]);
            k = k + 1;
            proof {
                assert(self.out@ =~= before + bytes@.subrange(0, k as int));
                assert(bytes@.subrange(0, k as int).drop_last() =~= bytes@.subrange(0, k - 1));
            }
        }
        proof {
            assert(bytes@.subrange(0, k as int) =~= bytes@);
            lemma_without_whitespace_concat(before, bytes@);
        }
        let _total = self.out.len();
        match newline_at {
            Some(p) => {
                assert(self.out@.last() == bytes@.last());
                self.column = bytes.len() - p - 1;
                self.line_start = bytes[bytes.len() - 1] == 0x0a;
            },
            None => {
                self.column = self.column + bytes.len();
            },
        }
    }

    fn start_construct(&mut self, indent: usize, blank: bool)
        requires
            old(self).ok(),
        ensures
            final(self).pen() == pen_construct(old(self).pen(), indent as int, blank),
            final(self).ok(),
            without_whitespace(final(self).out@) == without_whitespace(old(self).out@),
            final(self).options == old(self).options,
            final(self).indent == indent,
            final(self).base_indent == indent,
    {
        if !self.line_start {
            self.newline();
        }
        if blank && self.column == 0 {
            self.push_blank(0x0a);
        }
        self.indent = indent;
        self.base_indent = indent;
        self.pending_space = false;
        self.comma_break = false;
        self.previous = None;
    }

    fn hard_line(&mut self, indent: usize)
        requires
            old(self).ok(),
        ensures
            final(self).pen() == pen_hard_line(old(self).pen(), indent as int),
            final(self).ok(),
            without_whitespace(final(self).out@) == without_whitespace(old(self).out@),
            final(self).options == old(self).options,
            final(self).indent == indent,
            final(self).base_indent == indent,
    {
        if !self.line_start {
            self.newline();
        }
        self.indent = indent;
        self.base_indent = indent;
        self.pending_space = false;
        self.comma_break = false;
        self.previous = None;
    }

    fn prepare_space(&mut self, source_had_space: bool)
        ensures
            final(self).pen() == pen_prepare_space(old(self).pen(), source_had_space),
            final(self).out@ == old(self).out@,
            final(self).column == old(self).column,
            final(self).line_start == old(self).line_start,
            final(self).options == old(self).options,
            final(self).indent == old(self).indent,
            final(self).base_indent == old(self).base_indent,
    {
        self.pending_space = self.pending_space || source_had_space;
    }

    /// A comment, then the end of its line.
    fn write_comment(&mut self, bytes: &[u8], source_had_space: bool)
        requires
            old(self).ok(),
        ensures
            final(self).pen() == pen_comment(old(self).pen(), old(self).options, bytes@, source_had_space),
            final(self).ok(),
            without_whitespace(final(self).out@) == without_whitespace(old(self).out@) + without_whitespace(
                bytes@,
            ),
            final(self).options == old(self).options,
            final(self).indent == old(self).indent,
            final(self).base_indent == old(self).base_indent,
    {
        if !self.line_start && source_had_space {
            self.write_space();
        }
        self.write_bytes(bytes);
        self.newline();
        self.previous = None;
    }

    /// A token, with the space before it that its kind, its neighbour and the
    /// source call for, breaking the line after a comma when it would not fit.
    #[verifier::spinoff_prover]
    #[verifier::rlimit(30)]
    fn write_token(
        &mut self,
        bytes: &[u8],
        kind: TokenKind,
        source_had_space: bool,
        region_open: bool,
        force_space_before: bool,
        comparison_prefix: bool,
    )
        requires
            old(self).ok(),
        ensures
            final(self).pen() == pen_token(
                old(self).pen(),
                old(self).options,
                bytes@,
                kind,
                source_had_space,
                region_open,
                force_space_before,
                comparison_prefix,
            ),
            final(self).ok(),
            without_whitespace(final(self).out@) == without_whitespace(old(self).out@) + without_whitespace(
                bytes@,
            ),
            final(self).options == old(self).options,
            final(self).base_indent == old(self).base_indent,
            final(self).indent == old(self).indent || final(self).indent == (if old(self).base_indent
                < usize::MAX {
                old(self).base_indent + 1
            } else {
                old(self).base_indent as int
            }),
    {
        let previous = self.previous;
        let composite_equal = kind == TokenKind::Equal && (previous_is(previous, TokenKind::Equal)
            || previous_is(previous, TokenKind::Less) || previous_is(previous, TokenKind::Greater))
            && !source_had_space;
        let result_number = kind == TokenKind::HashIdentifier && previous_is(
            previous,
            TokenKind::PercentIdentifier,
        ) && !source_had_space;
        let force_before = force_space_before || (kind == TokenKind::Equal && !composite_equal)
            || kind == TokenKind::Arrow || region_open || comparison_prefix || binary_operator(kind);
        let previous_opens = match previous {
            Some(p) => opens_delimiter(p),
            None => false,
        };
        let suppress_before = closes_delimiter(kind) || kind == TokenKind::Comma || (kind
            == TokenKind::Greater && !comparison_prefix) || (kind == TokenKind::Colon
            && !force_space_before) || previous_opens || previous_is(previous, TokenKind::Less)
            || kind == TokenKind::X || previous_is(previous, TokenKind::X) || composite_equal
            || result_number;
        let previous_word = match previous {
            Some(p) => word_like(p),
            None => false,
        };
        let lexical_space = previous_word && word_like(kind);
        let wants_space = !suppress_before && (force_before || self.pending_space
            || source_had_space || lexical_space);
        let width = self.options.line_width as u128;
        let needed = self.column as u128 + (if wants_space {
            1u128
        } else {
            0u128
        }) + bytes.len() as u128;
        if self.comma_break && self.options.line_width > 0 && needed > width {
            self.newline();
            self.indent = if self.base_indent < usize::MAX {
                self.base_indent + 1
            } else {
                self.base_indent
            };
        } else if wants_space {
            self.write_space();
        }
        self.write_bytes(bytes);
        self.pending_space = kind == TokenKind::Comma || kind == TokenKind::Equal || kind
            == TokenKind::Arrow || (kind == TokenKind::Colon && force_space_before) || binary_operator(
            kind,
        );
        self.comma_break = kind == TokenKind::Comma;
        self.previous = Some(kind);
    }

    /// A spelling kept as it is, as one word.
    fn write_atom(&mut self, bytes: &[u8])
        requires
            old(self).ok(),
        ensures
            final(self).pen() == pen_atom(old(self).pen(), old(self).options, bytes@),
            final(self).ok(),
            without_whitespace(final(self).out@) == without_whitespace(old(self).out@) + without_whitespace(
                bytes@,
            ),
            final(self).options == old(self).options,
            final(self).indent == old(self).indent,
            final(self).base_indent == old(self).base_indent,
    {
        if self.pending_space {
            self.write_space();
        }
        self.write_bytes(bytes);
        self.pending_space = false;
        self.comma_break = false;
        self.previous = Some(TokenKind::BareIdentifier);
    }

    /// A spelling kept as it is over several lines: trimmed, and each line after
    /// the first reindented.
    fn write_verbatim_block(&mut self, bytes: &[u8])
        requires
            old(self).ok(),
        ensures
            final(self).pen() == pen_verbatim(old(self).pen(), old(self).options, bytes@),
            final(self).ok(),
            without_whitespace(final(self).out@) == without_whitespace(old(self).out@) + without_whitespace(
                bytes@,
            ),
            final(self).options == old(self).options,
            final(self).indent == old(self).indent,
            final(self).base_indent == old(self).base_indent,
    {
        let (lo, hi) = trim_ascii_whitespace(bytes);
        let text = vstd::slice::slice_subrange(bytes, lo, hi);
        proof {
            lemma_trimmed(bytes@, lo as int, hi as int);
        }
        let ghost before = self.out@;
        let ghost goal = pen_lines(old(self).pen(), old(self).options, text@, 0, true);
        let mut start: usize = 0;
        let mut first_line = true;
        loop
            invariant_except_break
                without_whitespace(self.out@) == without_whitespace(before) + without_whitespace(
                    text@.subrange(0, start as int),
                ),
                pen_lines(self.pen(), self.options, text@, start as int, first_line) == goal,
            invariant
                self.ok(),
                start <= text@.len(),
                first_line ==> start == 0,
                self.options == old(self).options,
                self.indent == old(self).indent,
                self.base_indent == old(self).base_indent,
            ensures
                self.ok(),
                self.pen() == goal,
                without_whitespace(self.out@) == without_whitespace(before) + without_whitespace(text@),
                self.options == old(self).options,
                self.indent == old(self).indent,
                self.base_indent == old(self).base_indent,
            decreases text@.len() - start,
        {
            let mut end = start;
            while end < text.len() && text[end] != 0x0a
                invariant
                    start <= end <= text@.len(),
                    line_end(text@, start as int) == line_end(text@, end as int),
                decreases text@.len() - end,
            {
                end = end + 1;
            }
            proof {
                lemma_line_end(text@, start as int);
            }
            let line = vstd::slice::slice_subrange(text, start, end);
            if !first_line {
                self.newline();
            }
            let skip = if first_line {
                0
            } else {
                horizontal_indent(line)
            };
            let kept = vstd::slice::slice_subrange(line, skip, line.len());
            proof {
                lemma_trimmed(line@, skip as int, line@.len() as int);
            }
            self.write_bytes(kept);
            first_line = false;
            proof {
                lemma_without_whitespace_concat(text@.subrange(0, start as int), line@);
                assert(text@.subrange(0, start as int) + line@ =~= text@.subrange(0, end as int));
            }
            if end == text.len() {
                proof {
                    assert(text@.subrange(0, end as int) =~= text@);
                }
                break;
            }
            proof {
                lemma_without_whitespace_concat(text@.subrange(0, end as int), seq![0x0au8]);
                assert(text@.subrange(0, end as int) + seq![0x0au8] =~= text@.subrange(0, end + 1));
                lemma_blank_vanishes(seq![0x0au8]);
            }
            start = end + 1;
        }
        self.pending_space = false;
        self.comma_break = false;
        self.previous = Some(TokenKind::BareIdentifier);
    }

    fn finish(&mut self)
        requires
            old(self).ok(),
        ensures
            final(self).pen() == pen_finish(old(self).pen()),
            final(self).ok(),
            ends_lines(final(self).out@),
            without_whitespace(final(self).out@) == without_whitespace(old(self).out@),
    {
        if !self.line_start {
            self.newline();
        }
    }
}

/// Trivia for layout: whitespace, comments and the end of the file.
pub open spec fn layout_trivia(kind: TokenKind) -> bool {
    kind == TokenKind::Whitespace || kind == TokenKind::LineComment || kind == TokenKind::Eof
}

fn is_layout_trivia(kind: TokenKind) -> (r: bool)
    ensures
        r == layout_trivia(kind),
{
    kind == TokenKind::Whitespace || kind == TokenKind::LineComment || kind == TokenKind::Eof
}

/// How a spelling that is kept as it is gets written.
#[derive(Clone, Copy)]
enum VerbatimKind {
    Atom,
    Block,
}

/// A spelling kept as it is: its bytes and how to write them.
#[derive(Clone, Copy)]
struct VerbatimRange {
    range: TextRange,
    kind: VerbatimKind,
}

/// What the tree says about the layout of each token: the indentation of the
/// construct it starts, of the region it opens or closes, the verbatim spelling
/// that starts at it, and whether it wants a space before it.
struct Annotations {
    line_starts: Vec<Option<usize>>,
    region_opens: Vec<Option<usize>>,
    region_closes: Vec<Option<usize>>,
    verbatim: Vec<Option<VerbatimRange>>,
    space_before: Vec<bool>,
}

/// A verbatim spelling at token `i` runs from its start to the end of a later
/// token that is not trivia.
spec fn verbatim_fits(v: VerbatimRange, toks: Seq<Token>, i: int) -> bool {
    exists|last: int|
        i <= last < toks.len() && !layout_trivia(toks[last].spec_kind()) && v.range.spec_start()
            == toks[i].spec_start() && v.range.spec_end() == #[trigger] toks[last].spec_end()
}

spec fn annotations_wf(a: &Annotations, toks: Seq<Token>, bound: int) -> bool {
    &&& a.line_starts@.len() == toks.len()
    &&& a.region_opens@.len() == toks.len()
    &&& a.region_closes@.len() == toks.len()
    &&& a.verbatim@.len() == toks.len()
    &&& a.space_before@.len() == toks.len()
    &&& forall|i: int| 0 <= i < toks.len() ==> (#[trigger] a.line_starts@[i] matches Some(x) ==> x < bound)
    &&& forall|i: int| 0 <= i < toks.len() ==> (#[trigger] a.region_opens@[i] matches Some(x) ==> x < bound)
    &&& forall|i: int| 0 <= i < toks.len() ==> (#[trigger] a.region_closes@[i] matches Some(x) ==> x < bound)
    &&& forall|i: int|
        0 <= i < toks.len() ==> (#[trigger] a.verbatim@[i] matches Some(v) ==> verbatim_fits(v, toks, i))
}

/// The first token of `[i, last)` that is not layout trivia.
pub open spec fn first_sig(toks: Seq<Token>, i: int, last: int) -> Option<int>
    decreases last - i,
{
    if 0 <= i < last && i < toks.len() {
        if !layout_trivia(toks[i].spec_kind()) {
            Some(i)
        } else {
            first_sig(toks, i + 1, last)
        }
    } else {
        None
    }
}

/// The last token of `[first, k)` that is not layout trivia.
pub open spec fn last_sig(toks: Seq<Token>, first: int, k: int) -> Option<int>
    decreases k - first,
{
    if first < k && 0 < k <= toks.len() {
        if !layout_trivia(toks[k - 1].spec_kind()) {
            Some(k - 1)
        } else {
            last_sig(toks, first, k - 1)
        }
    } else {
        None
    }
}

/// The first token of `kind` in `[i, last)`.
pub open spec fn first_of(toks: Seq<Token>, i: int, last: int, kind: TokenKind) -> Option<int>
    decreases last - i,
{
    if 0 <= i < last && i < toks.len() {
        if toks[i].spec_kind() == kind {
            Some(i)
        } else {
            first_of(toks, i + 1, last, kind)
        }
    } else {
        None
    }
}

/// The last token of `kind` in `[first, k)`.
pub open spec fn last_of(toks: Seq<Token>, first: int, k: int, kind: TokenKind) -> Option<int>
    decreases k - first,
{
    if first < k && 0 < k <= toks.len() {
        if toks[k - 1].spec_kind() == kind {
            Some(k - 1)
        } else {
            last_of(toks, first, k - 1, kind)
        }
    } else {
        None
    }
}

/// The first token of `[first, last)` that is not layout trivia.
fn first_significant(all: &[Token], first: usize, last: usize) -> (r: Option<usize>)
    requires
        first <= last <= all@.len(),
    ensures
        r matches Some(k) ==> first <= k < last && !layout_trivia(all@[k as int].spec_kind()) && forall|j: int|
            first <= j < k ==> layout_trivia(#[trigger] all@[j].spec_kind()),
        match r {
            Some(k) => first_sig(all@, first as int, last as int) == Some(k as int),
            None => first_sig(all@, first as int, last as int) is None,
        },
{
    let mut k = first;
    while k < last
        invariant
            first <= k <= last <= all@.len(),
            first_sig(all@, first as int, last as int) == first_sig(all@, k as int, last as int),
            forall|j: int| first <= j < k ==> layout_trivia(#[trigger] all@[j].spec_kind()),
        decreases last - k,
    {
        if !is_layout_trivia(all[k].kind()) {
            return Some(k);
        }
        k = k + 1;
    }
    None
}

/// The last token of `[first, last)` that is not layout trivia.
fn last_significant(all: &[Token], first: usize, last: usize) -> (r: Option<usize>)
    requires
        first <= last <= all@.len(),
    ensures
        r matches Some(k) ==> first <= k < last && !layout_trivia(all@[k as int].spec_kind()),
        match r {
            Some(k) => last_sig(all@, first as int, last as int) == Some(k as int),
            None => last_sig(all@, first as int, last as int) is None,
        },
{
    let mut k = last;
    while k > first
        invariant
            first <= k <= last <= all@.len(),
            last_sig(all@, first as int, last as int) == last_sig(all@, first as int, k as int),
        decreases k,
    {
        k = k - 1;
        if !is_layout_trivia(all[k].kind()) {
            return Some(k);
        }
    }
    None
}

/// The first token of `kind` in `[first, last)`, or the last one when `from_end`.
fn find_kind(all: &[Token], first: usize, last: usize, kind: TokenKind, from_end: bool) -> (r: Option<usize>)
    requires
        first <= last <= all@.len(),
    ensures
        r matches Some(k) ==> first <= k < last,
        match r {
            Some(k) => (if from_end {
                last_of(all@, first as int, last as int, kind)
            } else {
                first_of(all@, first as int, last as int, kind)
            }) == Some(k as int),
            None => (if from_end {
                last_of(all@, first as int, last as int, kind)
            } else {
                first_of(all@, first as int, last as int, kind)
            }) is None,
        },
{
    if from_end {
        let mut k = last;
        while k > first
            invariant
                from_end,
                first <= k <= last <= all@.len(),
                last_of(all@, first as int, last as int, kind) == last_of(all@, first as int, k as int, kind),
            decreases k,
        {
            k = k - 1;
            if all[k].kind() == kind {
                return Some(k);
            }
        }
        None
    } else {
        let mut k = first;
        while k < last
            invariant
                !from_end,
                first <= k <= last <= all@.len(),
                first_of(all@, first as int, last as int, kind) == first_of(all@, k as int, last as int, kind),
            decreases last - k,
        {
            if all[k].kind() == kind {
                return Some(k);
            }
            k = k + 1;
        }
        None
    }
}

/// The last node up to `j` whose subtree holds node `i`.
pub open spec fn enclosing_at(t: &SyntaxTree, i: int, j: int) -> Option<int>
    decreases j + 1,
{
    if j < 0 {
        None
    } else if i < t.spec_end(j) {
        Some(j)
    } else {
        enclosing_at(t, i, j - 1)
    }
}

/// The parent of node `i`: the innermost node before it whose subtree holds it.
pub open spec fn parent_of(t: &SyntaxTree, i: int) -> Option<int> {
    enclosing_at(t, i, i - 1)
}

/// A node up to `j` that holds `i` is one of the nodes up to `j`.
pub proof fn lemma_enclosing_below(t: &SyntaxTree, i: int, j: int)
    ensures
        enclosing_at(t, i, j) matches Some(r) ==> 0 <= r <= j,
    decreases j + 1,
{
    if j >= 0 && !(i < t.spec_end(j)) {
        lemma_enclosing_below(t, i, j - 1);
    }
}

/// The parent that the tree reports is `parent_of`.
proof fn lemma_parent_of(t: &SyntaxTree, i: int, r: Option<int>, j: int)
    requires
        -1 <= j < i,
        forall|k: int| (match r {
            Some(p) => p,
            None => -1,
        }) < k <= j ==> #[trigger] t.spec_end(k) <= i,
        r matches Some(p) ==> 0 <= p <= j && i < t.spec_end(p),
    ensures
        enclosing_at(t, i, j) == r,
    decreases j + 1,
{
    if j >= 0 {
        match r {
            Some(p) => {
                if p < j {
                    lemma_parent_of(t, i, r, j - 1);
                }
            },
            None => {
                lemma_parent_of(t, i, r, j - 1);
            },
        }
    }
}

/// The index of a node, if any.
pub open spec fn node_index(n: Option<NodeId>) -> Option<int> {
    match n {
        Some(p) => Some(p.spec_index()),
        None => None,
    }
}

/// What `SyntaxTree::parent` reports of a node is its `parent_of`.
proof fn lemma_reported_parent(t: &SyntaxTree, i: int, r: Option<NodeId>)
    requires
        0 <= i < t.spec_len(),
        r matches Some(p) ==> 0 <= p.spec_index() < i && i < t.spec_end(p.spec_index()) && forall|j: int|
            p.spec_index() < j < i ==> #[trigger] t.spec_end(j) <= i,
        r is None ==> forall|j: int| 0 <= j < i ==> #[trigger] t.spec_end(j) <= i,
    ensures
        node_index(r) == parent_of(t, i),
{
    lemma_parent_of(t, i, node_index(r), i - 1);
}

/// Whether node `q` is a block that starts with its label.
pub open spec fn labeled(t: &SyntaxTree, q: int) -> bool {
    match first_sig(t.spec_tokens(), t.spec_first(q), t.spec_last(q)) {
        Some(k) => t.spec_tokens()[k].spec_kind() == TokenKind::CaretIdentifier,
        None => false,
    }
}

/// Whether node `q` indents what it holds: a region or a labeled block.
pub open spec fn indents(t: &SyntaxTree, q: int) -> bool {
    t.spec_kind(q) == SyntaxKind::Region || (t.spec_kind(q) == SyntaxKind::Block && labeled(t, q))
}

/// How many of the nodes from `p` up to the root indent what they hold.
pub open spec fn depth_from(t: &SyntaxTree, p: Option<int>) -> int
    decreases (match p {
        Some(q) => q + 1,
        None => 0,
    }),
{
    match p {
        Some(q) => if 0 <= q {
            proof {
                lemma_enclosing_below(t, q, q - 1);
            }
            (if indents(t, q) {
                1int
            } else {
                0int
            }) + depth_from(t, parent_of(t, q))
        } else {
            0
        },
        None => 0,
    }
}

/// The depth seen from node `q` counts the nodes from `q` up to the root that
/// indent what they hold: at least none and at most one per node.
pub proof fn lemma_depth_bounds(t: &SyntaxTree, p: Option<int>)
    ensures
        0 <= depth_from(t, p),
        p matches Some(q) ==> (0 <= q ==> depth_from(t, p) <= q + 1),
    decreases (match p {
        Some(q) => q + 1,
        None => 0,
    }),
{
    if let Some(q) = p {
        if 0 <= q {
            lemma_enclosing_below(t, q, q - 1);
            lemma_depth_bounds(t, parent_of(t, q));
        }
    }
}

/// Each node that indents what it holds (a region, or a block that starts with
/// its label) puts what it holds exactly one level deeper than what holds it,
/// and every other node leaves the level as it is; so what a region nested in
/// a region holds stands at least two levels deep.
pub proof fn lemma_indenting_node_adds_one_level(t: &SyntaxTree, q: int)
    requires
        0 <= q,
    ensures
        indents(t, q) ==> depth_from(t, Some(q)) == depth_from(t, parent_of(t, q)) + 1,
        !indents(t, q) ==> depth_from(t, Some(q)) == depth_from(t, parent_of(t, q)),
        indents(t, q) && (parent_of(t, q) matches Some(p) && 0 <= p && indents(t, p)) ==> depth_from(
            t,
            Some(q),
        ) >= 2,
{
    lemma_enclosing_below(t, q, q - 1);
    if let Some(p) = parent_of(t, q) {
        if 0 <= p {
            lemma_enclosing_below(t, p, p - 1);
            lemma_depth_bounds(t, parent_of(t, p));
            assert(depth_from(t, Some(p)) == (if indents(t, p) {
                1int
            } else {
                0int
            }) + depth_from(t, parent_of(t, p)));
        }
    }
}

/// How a spelling of `kind` is kept as it is: over lines (`true`), as one
/// word (`false`), or not at all.
pub open spec fn kept_verbatim(kind: SyntaxKind) -> Option<bool> {
    match kind {
        SyntaxKind::UnparsedCustomOperation | SyntaxKind::Error => Some(true),
        SyntaxKind::OpaqueAttribute | SyntaxKind::OpaqueType | SyntaxKind::DenseElementsAttribute
        | SyntaxKind::SparseElementsAttribute | SyntaxKind::DenseResourceElementsAttribute => Some(false),
        _ => None,
    }
}

/// Whether a node from `p` up to the root is kept as it is.
pub open spec fn verbatim_from(t: &SyntaxTree, p: Option<int>) -> bool
    decreases (match p {
        Some(q) => q + 1,
        None => 0,
    }),
{
    match p {
        Some(q) => if 0 <= q {
            proof {
                lemma_enclosing_below(t, q, q - 1);
            }
            kept_verbatim(t.spec_kind(q)) is Some || verbatim_from(t, parent_of(t, q))
        } else {
            false
        },
        None => false,
    }
}

/// Whether a node is a block that starts with its label.
fn labeled_block(tree: &SyntaxTree, all: &[Token], id: NodeId) -> (r: bool)
    requires
        all@ == tree.spec_tokens(),
        tree.valid(id),
    ensures
        r == labeled(tree, id.spec_index()),
{
    match tree.token_span(id) {
        Some((first, last)) => match first_significant(all, first, last) {
            Some(k) => all[k].kind() == TokenKind::CaretIdentifier,
            None => false,
        },
        None => false,
    }
}

/// How many regions and labeled blocks enclose node `node`.
fn syntax_indent(tree: &SyntaxTree, all: &[Token], node: usize) -> (r: usize)
    requires
        all@ == tree.spec_tokens(),
        node < tree.spec_len(),
    ensures
        r <= node,
        r == depth_from(tree, parent_of(tree, node as int)),
{
    let mut indent: usize = 0;
    let mut parent = tree.parent(NodeId::from_index(node));
    proof {
        lemma_reported_parent(tree, node as int, parent);
    }
    loop
        invariant
            all@ == tree.spec_tokens(),
            node < tree.spec_len(),
            indent <= node,
            parent matches Some(p) ==> 0 <= p.spec_index() && p.spec_index() + indent < node,
            indent + depth_from(tree, node_index(parent)) == depth_from(tree, parent_of(tree, node as int)),
        ensures
            indent <= node,
            indent == depth_from(tree, parent_of(tree, node as int)),
        decreases (match parent {
            Some(p) => p.spec_index() + 1,
            None => 0,
        }),
    {
        match parent {
            None => {
                break;
            },
            Some(current) => {
                proof {
                    lemma_enclosing_below(tree, current.spec_index(), current.spec_index() - 1);
                    assert(depth_from(tree, Some(current.spec_index())) == (if indents(tree, current.spec_index()) {
                        1int
                    } else {
                        0int
                    }) + depth_from(tree, parent_of(tree, current.spec_index())));
                }
                match tree.kind(current) {
                    Some(SyntaxKind::Region) => {
                        indent = indent + 1;
                    },
                    Some(SyntaxKind::Block) => {
                        if labeled_block(tree, all, current) {
                            indent = indent + 1;
                        }
                    },
                    _ => {},
                }
                parent = tree.parent(current);
                proof {
                    lemma_reported_parent(tree, current.spec_index(), parent);
                }
            },
        }
    }
    indent
}

fn verbatim_kind_of(kind: SyntaxKind) -> (r: Option<VerbatimKind>)
    ensures
        match r {
            Some(v) => kept_verbatim(kind) == Some(v is Block),
            None => kept_verbatim(kind) is None,
        },
{
    match kind {
        SyntaxKind::UnparsedCustomOperation | SyntaxKind::Error => Some(VerbatimKind::Block),
        SyntaxKind::OpaqueAttribute | SyntaxKind::OpaqueType | SyntaxKind::DenseElementsAttribute
        | SyntaxKind::SparseElementsAttribute | SyntaxKind::DenseResourceElementsAttribute => Some(
            VerbatimKind::Atom,
        ),
        _ => None,
    }
}

/// Whether a node lies inside a spelling that is kept as it is.
fn has_verbatim_ancestor(tree: &SyntaxTree, node: usize) -> (r: bool)
    requires
        node < tree.spec_len(),
    ensures
        r == verbatim_from(tree, parent_of(tree, node as int)),
{
    let mut parent = tree.parent(NodeId::from_index(node));
    proof {
        lemma_reported_parent(tree, node as int, parent);
    }
    loop
        invariant
            parent matches Some(p) ==> 0 <= p.spec_index() < tree.spec_len(),
            verbatim_from(tree, node_index(parent)) == verbatim_from(tree, parent_of(tree, node as int)),
        decreases (match parent {
            Some(p) => p.spec_index() + 1,
            None => 0,
        }),
    {
        match parent {
            None => {
                return false;
            },
            Some(current) => {
                proof {
                    lemma_enclosing_below(tree, current.spec_index(), current.spec_index() - 1);
                }
                match tree.kind(current) {
                    Some(kind) => {
                        if verbatim_kind_of(kind).is_some() {
                            return true;
                        }
                    },
                    None => {},
                }
                parent = tree.parent(current);
                proof {
                    lemma_reported_parent(tree, current.spec_index(), parent);
                }
            },
        }
    }
}

/// `sb` with the colons among tokens `[from, stop)` marked.
pub open spec fn mark_colons(toks: Seq<Token>, from: int, stop: int, sb: Seq<bool>) -> Seq<bool> {
    Seq::new(
        sb.len(),
        |j: int|
            if from <= j < stop && toks[j].spec_kind() == TokenKind::Colon {
                true
            } else {
                sb[j]
            },
    )
}

/// `sb` with the colons of a node marked that lie before its last token `last`
/// and, from `cur` on, outside its children from the `c`-th on.
pub open spec fn direct_colons(t: &SyntaxTree, kids: Seq<NodeId>, c: int, cur: int, last: int, sb: Seq<bool>) -> Seq<bool>
    decreases kids.len() - c,
{
    if 0 <= c < kids.len() {
        let child = kids[c].spec_index();
        let until = t.spec_first(child);
        let stop = if until < last {
            until
        } else {
            last
        };
        let marked = mark_colons(t.spec_tokens(), cur, stop, sb);
        let after = if cur < stop {
            stop
        } else {
            cur
        };
        let next = if t.spec_last(child) > after {
            t.spec_last(child)
        } else {
            after
        };
        direct_colons(t, kids, c + 1, next, last, marked)
    } else {
        mark_colons(t.spec_tokens(), cur, last, sb)
    }
}

/// `sb` with the colons that belong to node `id` itself marked, not those of a
/// node inside it.
pub open spec fn colons_of(t: &SyntaxTree, id: int, sb: Seq<bool>) -> Seq<bool> {
    direct_colons(t, t.spec_children(id), 0, t.spec_first(id), t.spec_last(id), sb)
}

/// Marks the colons that belong to node `id` itself, not to a node inside it.
fn mark_direct_colons(tree: &SyntaxTree, all: &[Token], id: NodeId, space_before: &mut Vec<bool>)
    requires
        all@ == tree.spec_tokens(),
        tree.valid(id),
        old(space_before)@.len() == all@.len(),
    ensures
        final(space_before)@.len() == old(space_before)@.len(),
        final(space_before)@ == colons_of(tree, id.spec_index(), old(space_before)@),
{
    let (first, last) = match tree.token_span(id) {
        Some(span) => span,
        None => {
            return;
        },
    };
    let children = match tree.children(id) {
        Some(children) => children,
        None => {
            return;
        },
    };
    let ghost goal = colons_of(tree, id.spec_index(), old(space_before)@);
    let mut t = first;
    let mut c: usize = 0;
    while c < children.len()
        invariant
            first <= last <= all@.len(),
            all@ == tree.spec_tokens(),
            last == tree.spec_last(id.spec_index()),
            space_before@.len() == all@.len(),
            c <= children@.len(),
            forall|k: int| 0 <= k < children@.len() ==> tree.valid(#[trigger] children@[k]),
            direct_colons(tree, children@, c as int, t as int, last as int, space_before@) == goal,
        decreases children@.len() - c,
    {
        let until = match tree.token_span(children[c]) {
            Some((child_first, _)) => child_first,
            None => last,
        };
        let stop = if until < last {
            until
        } else {
            last
        };
        t = mark_colons_between(all, t, stop, space_before);
        match tree.token_span(children[c]) {
            Some((_, child_last)) => {
                if child_last > t {
                    t = child_last;
                }
            },
            None => {},
        }
        c = c + 1;
    }
    mark_colons_between(all, t, last, space_before);
}

/// Marks the colons among tokens `[from, stop)`; where the scan ended.
fn mark_colons_between(all: &[Token], from: usize, stop: usize, space_before: &mut Vec<bool>) -> (r: usize)
    requires
        stop <= all@.len(),
        old(space_before)@.len() == all@.len(),
    ensures
        final(space_before)@.len() == old(space_before)@.len(),
        final(space_before)@ == mark_colons(all@, from as int, stop as int, old(space_before)@),
        r >= from,
        r == (if from < stop {
            stop
        } else {
            from
        }),
{
    let mut t = from;
    while t < stop
        invariant
            stop <= all@.len(),
            space_before@.len() == all@.len(),
            t >= from,
            from < stop ==> t <= stop,
            from >= stop ==> t == from,
            space_before@ == mark_colons(all@, from as int, t as int, old(space_before)@),
        decreases stop - t,
    {
        if all[t].kind() == TokenKind::Colon {
            space_before.set(t, true);
        }
        t = t + 1;
        proof {
            assert(space_before@ =~= mark_colons(all@, from as int, t as int, old(space_before)@));
        }
    }
    proof {
        assert(space_before@ =~= mark_colons(all@, from as int, stop as int, old(space_before)@));
    }
    t
}

fn nones(n: usize) -> (r: Vec<Option<usize>>)
    ensures
        r@.len() == n,
        forall|i: int| 0 <= i < n ==> #[trigger] r@[i] is None,
{
    let mut v: Vec<Option<usize>> = Vec::new();
    while v.len() < n
        invariant
            v@.len() <= n,
            forall|i: int| 0 <= i < v@.len() ==> #[trigger] v@[i] is None,
        decreases n - v@.len(),
    {
        v.push(None);
    }
    v
}

/// No token marked, for `n` tokens.
pub open spec fn no_marks(n: int) -> Marks {
    Marks {
        line_starts: Seq::new(n as nat, |_i: int| None),
        region_opens: Seq::new(n as nat, |_i: int| None),
        region_closes: Seq::new(n as nat, |_i: int| None),
        verbatim: Seq::new(n as nat, |_i: int| None),
        space_before: Seq::new(n as nat, |_i: int| false),
    }
}

/// The marks `a` with what the kind of node `node`, whose first token that is
/// not trivia is `start`, says of its tokens: an operation, alias or labeled
/// block starts a line at its depth there, and an operation spaces its own
/// colons; a region's first `{` opens and its last `}` closes it, on a line of
/// its own.
pub open spec fn layout_marks(t: &SyntaxTree, a: Marks, node: int, start: int) -> Marks {
    let toks = t.spec_tokens();
    let kind = t.spec_kind(node);
    let first = t.spec_first(node);
    let last = t.spec_last(node);
    let indent = Some(depth_from(t, parent_of(t, node)) as usize);
    if kind == SyntaxKind::Operation || kind == SyntaxKind::DialectOperation || kind
        == SyntaxKind::UnparsedCustomOperation || kind == SyntaxKind::AliasDefinition {
        let a = Marks { line_starts: a.line_starts.update(start, indent), ..a };
        if kind == SyntaxKind::Operation || kind == SyntaxKind::DialectOperation {
            Marks { space_before: colons_of(t, node, a.space_before), ..a }
        } else {
            a
        }
    } else if kind == SyntaxKind::Block {
        if toks[start].spec_kind() == TokenKind::CaretIdentifier {
            Marks { line_starts: a.line_starts.update(start, indent), ..a }
        } else {
            a
        }
    } else if kind == SyntaxKind::Region {
        let a = match first_of(toks, first, last, TokenKind::LBrace) {
            Some(open) => Marks { region_opens: a.region_opens.update(open, indent), ..a },
            None => a,
        };
        match last_of(toks, first, last, TokenKind::RBrace) {
            Some(close) => Marks {
                region_closes: a.region_closes.update(close, indent),
                line_starts: a.line_starts.update(close, indent),
                ..a
            },
            None => a,
        }
    } else {
        a
    }
}

/// The marks `a` with the spelling that node `node` keeps as it is, when it is
/// within no such spelling: from `start` to its last token that is not trivia.
pub open spec fn verbatim_marks(t: &SyntaxTree, a: Marks, node: int, start: int) -> Marks {
    let toks = t.spec_tokens();
    match kept_verbatim(t.spec_kind(node)) {
        Some(block) => if !verbatim_from(t, parent_of(t, node)) {
            match last_sig(toks, t.spec_first(node), t.spec_last(node)) {
                Some(end) => if toks[start].spec_start() <= toks[end].spec_end() {
                    Marks {
                        verbatim: a.verbatim.update(
                            start,
                            Some((toks[start].spec_start() as int, toks[end].spec_end() as int, block)),
                        ),
                        ..a
                    }
                } else {
                    a
                },
                None => a,
            }
        } else {
            a
        },
        None => a,
    }
}

/// The marks `a` with what node `node` says of its tokens, from its first token
/// that is not trivia; nothing when it has none.
pub open spec fn node_marks(t: &SyntaxTree, a: Marks, node: int) -> Marks {
    match first_sig(t.spec_tokens(), t.spec_first(node), t.spec_last(node)) {
        None => a,
        Some(start) => verbatim_marks(t, layout_marks(t, a, node, start), node, start),
    }
}

/// The marks of the first `n` nodes of `t`, each later node's overriding.
pub open spec fn marks_upto(t: &SyntaxTree, n: int) -> Marks
    decreases n,
{
    if n <= 0 {
        no_marks(t.spec_tokens().len() as int)
    } else {
        node_marks(t, marks_upto(t, n - 1), n - 1)
    }
}

/// The marks that the nodes of `t` put on its tokens.
pub open spec fn marks_of(t: &SyntaxTree) -> Marks {
    marks_upto(t, t.spec_len() as int)
}

impl Annotations {
    spec fn marks(&self) -> Marks {
        Marks {
            line_starts: self.line_starts@,
            region_opens: self.region_opens@,
            region_closes: self.region_closes@,
            verbatim: self.verbatim@.map_values(
                |v: Option<VerbatimRange>|
                    match v {
                        Some(r) => Some((r.range.spec_start() as int, r.range.spec_end() as int, r.kind is Block)),
                        None => None,
                    },
            ),
            space_before: self.space_before@,
        }
    }

    /// Reads the layout of every token off the tree.
    fn new(tree: &SyntaxTree) -> (r: Annotations)
        ensures
            annotations_wf(&r, tree.spec_tokens(), tree.spec_len() as int),
            r.marks() == marks_of(tree),
    {
        let root = tree.root();
        let all = match tree.tokens(root) {
            Some(all) => all,
            None => {
                return Annotations {
                    line_starts: Vec::new(),
                    region_opens: Vec::new(),
                    region_closes: Vec::new(),
                    verbatim: Vec::new(),
                    space_before: Vec::new(),
                };
            },
        };
        proof {
            assert(tree.spec_tokens().subrange(0, tree.spec_tokens().len() as int) =~= tree.spec_tokens());
        }
        let n = all.len();
        let mut verbatim: Vec<Option<VerbatimRange>> = Vec::new();
        while verbatim.len() < n
            invariant
                verbatim@.len() <= n,
                forall|i: int| 0 <= i < verbatim@.len() ==> #[trigger] verbatim@[i] is None,
            decreases n - verbatim@.len(),
        {
            verbatim.push(None);
        }
        let mut space_before: Vec<bool> = Vec::new();
        while space_before.len() < n
            invariant
                space_before@.len() <= n,
                forall|i: int| 0 <= i < space_before@.len() ==> !#[trigger] space_before@[i],
            decreases n - space_before@.len(),
        {
            space_before.push(false);
        }
        let mut annotations = Annotations {
            line_starts: nones(n),
            region_opens: nones(n),
            region_closes: nones(n),
            verbatim,
            space_before,
        };
        let count = tree.len();
        let mut node: usize = 0;
        proof {
            assert(annotations.marks() =~= no_marks(n as int));
        }
        while node < count
            invariant
                all@ == tree.spec_tokens(),
                n == all@.len(),
                count == tree.spec_len(),
                node <= count,
                annotations_wf(&annotations, tree.spec_tokens(), tree.spec_len() as int),
                annotations.marks() == marks_upto(tree, node as int),
            decreases count - node,
        {
            let id = NodeId::from_index(node);
            let ghost before = annotations.marks();
            node = node + 1;
            let kind = match tree.kind(id) {
                Some(kind) => kind,
                None => {
                    continue;
                },
            };
            let (first, last) = match tree.token_span(id) {
                Some(span) => span,
                None => {
                    continue;
                },
            };
            let start = match first_significant(all, first, last) {
                Some(k) => k,
                None => {
                    continue;
                },
            };
            let indent = syntax_indent(tree, all, node - 1);
            let ghost goal = node_marks(tree, before, node - 1);
            match kind {
                SyntaxKind::Operation | SyntaxKind::DialectOperation
                | SyntaxKind::UnparsedCustomOperation | SyntaxKind::AliasDefinition => {
                    annotations.line_starts.set(start, Some(indent));
                    if kind == SyntaxKind::Operation || kind == SyntaxKind::DialectOperation {
                        mark_direct_colons(tree, all, id, &mut annotations.space_before);
                    }
                },
                SyntaxKind::Block => {
                    if all[start].kind() == TokenKind::CaretIdentifier {
                        annotations.line_starts.set(start, Some(indent));
                    }
                },
                SyntaxKind::Region => {
                    match find_kind(all, first, last, TokenKind::LBrace, false) {
                        Some(open) => {
                            annotations.region_opens.set(open, Some(indent));
                        },
                        None => {},
                    }
                    match find_kind(all, first, last, TokenKind::RBrace, true) {
                        Some(close) => {
                            annotations.region_closes.set(close, Some(indent));
                            annotations.line_starts.set(close, Some(indent));
                        },
                        None => {},
                    }
                },
                _ => {},
            }
            proof {
                assert(annotations.marks() =~= layout_marks(tree, before, node - 1, start as int));
            }
            let ghost mid = annotations.marks();
            match verbatim_kind_of(kind) {
                Some(verbatim_kind) => {
                    if !has_verbatim_ancestor(tree, node - 1) {
                        match last_significant(all, first, last) {
                            Some(end) => {
                                match TextRange::new(all[start].range().start(), all[end].range().end()) {
                                    Some(range) => {
                                        let ghost vbefore = annotations.verbatim@;
                                        annotations.verbatim.set(
                                            start,
                                            Some(VerbatimRange { range, kind: verbatim_kind }),
                                        );
                                        proof {
                                            assert(start <= end) by {
                                                if end < start {
                                                    assert(!layout_trivia(all@[end as int].spec_kind()));
                                                }
                                            }
                                            assert forall|i: int| 0 <= i < n implies (#[trigger] annotations.verbatim@[i] matches Some(v)
                                                ==> verbatim_fits(v, tree.spec_tokens(), i)) by {
                                                if i == start {
                                                    assert(tree.spec_tokens()[end as int].spec_end()
                                                        == range.spec_end());
                                                } else {
                                                    assert(annotations.verbatim@[i] == vbefore[i]);
                                                }
                                            }
                                        }
                                    },
                                    None => {},
                                }
                            },
                            None => {},
                        }
                    }
                },
                None => {},
            }
            proof {
                assert(annotations.marks() =~= verbatim_marks(tree, mid, node - 1, start as int));
            }
        }
        annotations
    }
}

/// What the tree says of each token's layout: the depth of the construct that
/// it starts on a line of its own, of the region whose brace it opens or
/// closes, the spelling kept as it is that starts at it (its range, and whether
/// it is laid out over lines), and whether it wants a space before it.
#[verifier::ext_equal]
pub struct Marks {
    pub line_starts: Seq<Option<usize>>,
    pub region_opens: Seq<Option<usize>>,
    pub region_closes: Seq<Option<usize>>,
    pub verbatim: Seq<Option<(int, int, bool)>>,
    pub space_before: Seq<bool>,
}

/// Where a scan of the tokens stands: the text so far, and what the whitespace
/// since the last token held: an empty line, any space, a line break.
pub struct Scan {
    pub pen: Pen,
    pub pending_blank: bool,
    pub had_space: bool,
    pub had_newline: bool,
}

/// The state after a token: its text, and no whitespace seen since.
pub open spec fn after_token(pen: Pen) -> Scan {
    Scan { pen, pending_blank: false, had_space: false, had_newline: false }
}

/// How many line breaks `b` holds.
pub open spec fn newline_total(b: Seq<u8>) -> int
    decreases b.len(),
{
    if b.len() == 0 {
        0
    } else {
        newline_total(b.drop_last()) + if b.last() == 0x0a {
            1int
        } else {
            0int
        }
    }
}

/// The first token from `i` on that ends after `end`.
pub open spec fn skip_within(toks: Seq<Token>, i: int, end: int) -> int
    decreases toks.len() - i,
{
    if 0 <= i < toks.len() && toks[i].spec_end() <= end {
        skip_within(toks, i + 1, end)
    } else {
        i
    }
}

/// The first token from `i` on that ends after `end` is `i` or later.
pub proof fn lemma_skip_within(toks: Seq<Token>, i: int, end: int)
    requires
        0 <= i <= toks.len(),
    ensures
        i <= skip_within(toks, i, end) <= toks.len(),
    decreases toks.len() - i,
{
    if i < toks.len() && toks[i].spec_end() <= end {
        lemma_skip_within(toks, i + 1, end);
    }
}

/// The text laid out from token `i` on, from the state `st`: whitespace is
/// remembered, not written; a spelling kept as it is is written whole and the
/// tokens it covers skipped; a comment keeps its line; every other token is
/// written with the spacing of its kind, breaking lines where the marks start
/// constructs or open and close regions.
pub open spec fn layout_from(src: Seq<u8>, toks: Seq<Token>, m: Marks, options: FormatOptions, i: int, st: Scan) -> Pen
    decreases toks.len() - i,
{
    if i < 0 || i >= toks.len() || toks[i].spec_kind() == TokenKind::Eof {
        st.pen
    } else {
        let kind = toks[i].spec_kind();
        let bytes = src.subrange(toks[i].spec_start() as int, toks[i].spec_end() as int);
        if kind == TokenKind::Whitespace {
            layout_from(
                src,
                toks,
                m,
                options,
                i + 1,
                Scan {
                    pending_blank: st.pending_blank || newline_total(bytes) >= 2,
                    had_space: true,
                    had_newline: st.had_newline || newline_total(bytes) > 0,
                    ..st
                },
            )
        } else if m.verbatim[i] is Some {
            let (range_start, range_end, block) = m.verbatim[i]->0;
            let p = match m.line_starts[i] {
                Some(indent) => pen_construct(st.pen, indent as int, st.pending_blank),
                None => pen_prepare_space(st.pen, st.had_space),
            };
            let text = src.subrange(range_start, range_end);
            let p = if block {
                pen_verbatim(p, options, text)
            } else {
                pen_atom(p, options, text)
            };
            let next = skip_within(toks, i, range_end);
            proof {
                lemma_skip_within(toks, i, range_end);
            }
            layout_from(
                src,
                toks,
                m,
                options,
                if next > i {
                    next
                } else {
                    i + 1
                },
                after_token(p),
            )
        } else {
            let p = match m.line_starts[i] {
                Some(indent) => pen_construct(st.pen, indent as int, st.pending_blank),
                None => st.pen,
            };
            if kind == TokenKind::LineComment {
                let p = if st.had_newline {
                    pen_construct(p, p.indent, st.pending_blank)
                } else {
                    p
                };
                layout_from(
                    src,
                    toks,
                    m,
                    options,
                    i + 1,
                    after_token(pen_comment(p, options, bytes, st.had_space && !st.had_newline)),
                )
            } else {
                let comparison = (kind == TokenKind::Less || kind == TokenKind::Greater) && i + 1
                    < toks.len() && toks[i + 1].spec_kind() == TokenKind::Equal;
                let p = match m.region_closes[i] {
                    Some(indent) => pen_construct(p, indent as int, false),
                    None => p,
                };
                let p = pen_token(
                    p,
                    options,
                    bytes,
                    kind,
                    st.had_space,
                    m.region_opens[i] is Some,
                    m.space_before[i],
                    comparison,
                );
                let p = match m.region_opens[i] {
                    Some(indent) => pen_hard_line(p, indent + 1),
                    None => p,
                };
                layout_from(src, toks, m, options, i + 1, after_token(p))
            }
        }
    }
}

/// The laid-out text of the tokens `toks` over `src` under the marks `m`.
pub open spec fn laid_out(src: Seq<u8>, toks: Seq<Token>, m: Marks, options: FormatOptions) -> Seq<u8> {
    pen_finish(layout_from(src, toks, m, options, 0, after_token(fresh_pen()))).out
}

/// Where the text of the tokens before token `index` ends.
spec fn consumed(toks: Seq<Token>, len: int, index: int) -> int {
    if index < toks.len() {
        toks[index].spec_start()
    } else {
        len
    }
}

/// Tokens `[i, last]` of a lossless tape: their bytes run from the start of `i`
/// to the end of `last`, which the next token starts at, and the text before
/// the end of `last` is the text before `i` and theirs.
#[verifier::spinoff_prover]
#[verifier::rlimit(30)]
proof fn lemma_consume_run(source: Seq<u8>, toks: Seq<Token>, i: int, last: int)
    requires
        lossless(toks, source.len() as int),
        0 <= i <= last < toks.len() - 1,
    ensures
        0 <= toks[i].spec_start() <= toks[last].spec_end() <= source.len(),
        toks[last].spec_end() == toks[last + 1].spec_start(),
        forall|k: int| i <= k <= last ==> #[trigger] toks[k].spec_end() <= toks[last].spec_end(),
        last + 1 < toks.len() - 1 ==> toks[last + 1].spec_end() > toks[last].spec_end(),
        last + 1 == toks.len() - 1 ==> toks[last].spec_end() == source.len(),
        toks[toks.len() - 1].spec_end() == source.len(),
        toks[toks.len() - 1].spec_start() == source.len(),
        without_whitespace(source.subrange(0, toks[last].spec_end())) == without_whitespace(
            source.subrange(0, toks[i].spec_start()),
        ) + without_whitespace(source.subrange(toks[i].spec_start(), toks[last].spec_end())),
{
    let len = source.len() as int;
    let body = toks.drop_last();
    lemma_tiles_ordered(body, len);
    assert(body[i] == toks[i]);
    assert(body[last] == toks[last]);
    assert(body[0] == toks[0]);
    assert(toks[i].spec_start() >= 0) by {
        if i > 0 {
            assert(body[0].spec_end() <= body[i].spec_start());
        }
    }
    assert(toks[last].spec_end() <= len) by {
        if last < body.len() - 1 {
            assert(body[last].spec_end() <= body[body.len() - 1].spec_start());
            assert(body[body.len() - 1] == body.last());
        }
    }
    assert(toks[i].spec_start() <= toks[last].spec_end()) by {
        if i < last {
            assert(body[i].spec_end() <= body[last].spec_start());
        }
    }
    if last + 1 < body.len() {
        assert(body[last + 1] == toks[last + 1]);
        assert(body[last + 1].spec_start() < body[last + 1].spec_end());
    } else {
        assert(body.last() == toks[last]);
    }
    assert forall|k: int| i <= k <= last implies #[trigger] toks[k].spec_end() <= toks[last].spec_end() by {
        if k < last {
            assert(body[k] == toks[k]);
            assert(body[k].spec_end() <= body[last].spec_start());
        }
    }
    let a = source.subrange(0, toks[i].spec_start());
    let b = source.subrange(toks[i].spec_start(), toks[last].spec_end());
    assert(a + b =~= source.subrange(0, toks[last].spec_end()));
    lemma_without_whitespace_concat(a, b);
}

/// The bytes of `range` in `source`.
fn slice_of(source: &[u8], range: TextRange) -> (r: &[u8])
    requires
        range.spec_end() <= source@.len(),
    ensures
        r@ == source@.subrange(range.spec_start() as int, range.spec_end() as int),
{
    slice_subrange(source, range.start() as usize, range.end() as usize)
}

fn newline_count(bytes: &[u8]) -> (r: usize)
    ensures
        r == newline_total(bytes@),
{
    let mut count: usize = 0;
    let mut i: usize = 0;
    while i < bytes.len()
        invariant
            i <= bytes@.len(),
            count <= i,
            count == newline_total(bytes@.subrange(0, i as int)),
        decreases bytes@.len() - i,
    {
        proof {
            assert(bytes@.subrange(0, i + 1).drop_last() =~= bytes@.subrange(0, i as int));
        }
        if bytes[i] == 0x0a {
            count = count + 1;
        }
        i = i + 1;
    }
    proof {
        assert(bytes@.subrange(0, i as int) =~= bytes@);
    }
    count
}

fn holds_newline(bytes: &[u8]) -> (r: bool)
    ensures
        r == (newline_total(bytes@) > 0),
{
    newline_count(bytes) > 0
}

/// Lays out the text of `tree` over `source`: each operation, alias and labeled
/// block starts its own line at the indentation of its nesting, each region's
/// braces open and close indented lines, tokens are spaced by their kinds,
/// comments and spellings kept as they are stay, and blank lines of the source
/// survive once. Only whitespace changes.
#[verifier::spinoff_prover]
#[verifier::rlimit(40)]
fn format_syntax(source: &[u8], tree: &SyntaxTree, options: FormatOptions) -> (r: Result<Vec<u8>, FormatError>)
    requires
        lossless(tree.spec_tokens(), source@.len() as int),
        whitespace_tokens_blank(tree.spec_tokens(), source@),
    ensures
        r matches Ok(out) && out@ == laid_out(source@, tree.spec_tokens(), marks_of(tree), options)
            && without_whitespace(out@) == without_whitespace(source@) && ends_lines(out@),
{
    let annotations = Annotations::new(tree);
    let root = tree.root();
    let tokens = match tree.tokens(root) {
        Some(tokens) => tokens,
        None => {
            return Err(FormatError::MissingSyntax);
        },
    };
    proof {
        assert(tree.spec_tokens().subrange(0, tree.spec_tokens().len() as int) =~= tree.spec_tokens());
    }
    let ghost toks = tokens@;
    let ghost len = source@.len() as int;
    let bound = tree.len();
    let mut writer = LayoutWriter::new(options);
    let mut index: usize = 0;
    let mut pending_blank = false;
    let mut had_whitespace = false;
    let mut had_newline = false;
    proof {
        let body = toks.drop_last();
        if body.len() > 0 {
            assert(body[0] == toks[0]);
        }
        assert(source@.subrange(0, 0) =~= Seq::<u8>::empty());
        assert(without_whitespace(Seq::<u8>::empty()) =~= Seq::<u8>::empty());
        assert(source@.subrange(0, len) =~= source@);
    }
    let ghost m = annotations.marks();
    let ghost goal = layout_from(source@, toks, m, options, 0, after_token(fresh_pen()));
    while index < tokens.len()
        invariant
            toks == tokens@,
            toks == tree.spec_tokens(),
            m == annotations.marks(),
            writer.options == options,
            layout_from(
                source@,
                toks,
                m,
                options,
                index as int,
                Scan { pen: writer.pen(), pending_blank, had_space: had_whitespace, had_newline },
            ) == goal,
            len == source@.len(),
            bound == tree.spec_len(),
            lossless(toks, len),
            whitespace_tokens_blank(toks, source@),
            annotations_wf(&annotations, toks, bound as int),
            index <= toks.len(),
            writer.ok(),
            0 <= consumed(toks, len, index as int) <= len,
            source@.subrange(0, len) == source@,
            toks[toks.len() - 1].spec_start() == len,
            without_whitespace(writer.out@) == without_whitespace(
                source@.subrange(0, consumed(toks, len, index as int)),
            ),
        ensures
            writer.ok(),
            writer.options == options,
            writer.pen() == goal,
            without_whitespace(writer.out@) == without_whitespace(source@),
        decreases toks.len() - index,
    {
        let token = tokens[index];
        let kind = token.kind();
        if kind == TokenKind::Eof {
            proof {
                let body = toks.drop_last();
                assert(index == toks.len() - 1) by {
                    if index < toks.len() - 1 {
                        assert(body[index as int] == toks[index as int]);
                    }
                }
            }
            break;
        }
        proof {
            assert(index < toks.len() - 1);
            lemma_consume_run(source@, toks, index as int, index as int);
        }
        let range = token.range();
        if kind == TokenKind::Whitespace {
            let bytes = slice_of(source, range);
            pending_blank = pending_blank || newline_count(bytes) >= 2;
            had_whitespace = true;
            had_newline = had_newline || holds_newline(bytes);
            index = index + 1;
            proof {
                assert forall|k: int| 0 <= k < bytes@.len() implies spec_is_whitespace(#[trigger] bytes@[k]) by {
                    assert(spec_is_whitespace(source@[token.spec_start() + k]));
                }
                lemma_blank_vanishes(bytes@);
            }
            continue;
        }
        match annotations.verbatim[index] {
            Some(verbatim) => {
                proof {
                    assert(verbatim_fits(verbatim, toks, index as int));
                }
                let ghost last = choose|last: int|
                    index <= last < toks.len() && !layout_trivia(toks[last].spec_kind())
                        && verbatim.range.spec_start() == toks[index as int].spec_start()
                        && verbatim.range.spec_end() == #[trigger] toks[last].spec_end();
                proof {
                    let body = toks.drop_last();
                    assert(last < toks.len() - 1) by {
                        if last == toks.len() - 1 {
                            assert(toks[last].spec_kind() == TokenKind::Eof);
                        }
                    }
                    lemma_consume_run(source@, toks, index as int, last);
                }
                match annotations.line_starts[index] {
                    Some(indent) => {
                        writer.start_construct(indent, pending_blank);
                    },
                    None => {
                        writer.prepare_space(had_whitespace);
                    },
                }
                let bytes = slice_of(source, verbatim.range);
                match verbatim.kind {
                    VerbatimKind::Block => {
                        writer.write_verbatim_block(bytes);
                    },
                    VerbatimKind::Atom => {
                        writer.write_atom(bytes);
                    },
                }
                let ghost start_index = index as int;
                while index < tokens.len() && tokens[index].range().end() <= verbatim.range.end()
                    invariant
                        toks == tokens@,
                        start_index <= index,
                        skip_within(toks, start_index, verbatim.range.spec_end() as int) == skip_within(
                            toks,
                            index as int,
                            verbatim.range.spec_end() as int,
                        ),
                        start_index <= last < toks.len() - 1,
                        verbatim.range.spec_end() == toks[last].spec_end(),
                        forall|k: int| start_index <= k <= last ==> #[trigger] toks[k].spec_end() <= toks[last].spec_end(),
                        last + 1 < toks.len() - 1 ==> toks[last + 1].spec_end() > toks[last].spec_end(),
                        index <= last + 1 || (index == last + 2 && toks[last + 1].spec_end()
                            <= verbatim.range.spec_end()),
                    decreases toks.len() - index,
                {
                    index = index + 1;
                }
                proof {
                    if index as int <= last {
                        assert(toks[index as int].spec_end() <= toks[last].spec_end());
                    }
                    assert(consumed(toks, len, index as int) == toks[last].spec_end());
                }
                pending_blank = false;
                had_whitespace = false;
                had_newline = false;
                continue;
            },
            None => {},
        }
        match annotations.line_starts[index] {
            Some(indent) => {
                writer.start_construct(indent, pending_blank);
            },
            None => {},
        }
        let bytes = slice_of(source, range);
        if kind == TokenKind::LineComment {
            if had_newline {
                let indent = writer.indent;
                writer.start_construct(indent, pending_blank);
            }
            writer.write_comment(bytes, had_whitespace && !had_newline);
            pending_blank = false;
            had_whitespace = false;
            had_newline = false;
            index = index + 1;
            continue;
        }
        pending_blank = false;
        let region_open = annotations.region_opens[index];
        let region_close = annotations.region_closes[index];
        let space_before = annotations.space_before[index];
        let comparison_prefix = (kind == TokenKind::Less || kind == TokenKind::Greater) && index + 1
            < tokens.len() && tokens[index + 1].kind() == TokenKind::Equal;
        match region_close {
            Some(indent) => {
                writer.start_construct(indent, false);
            },
            None => {},
        }
        writer.write_token(bytes, kind, had_whitespace, region_open.is_some(), space_before, comparison_prefix);
        match region_open {
            Some(indent) => {
                writer.hard_line(indent + 1);
            },
            None => {},
        }
        had_whitespace = false;
        had_newline = false;
        index = index + 1;
    }
    writer.finish();
    assert(writer.out@ == laid_out(source@, toks, m, options));
    Ok(writer.out)
}

/// What formatting a file of `bytes` parsed as `tree` under `options` gives:
/// the indent width's error, the need for semantics of generic assembly, or the
/// text that `laid_out` lays out from the marks of the tree, whose bytes other
/// than whitespace are exactly those of the file, in order, and whose last line
/// is ended.
pub open spec fn formats_as(bytes: Seq<u8>, tree: &SyntaxTree, options: FormatOptions, r: &Result<Vec<u8>, FormatError>) -> bool {
    match r {
        Ok(out) => valid_options(options) && options.assembly == AssemblyStyle::Source && out@ == laid_out(
            bytes,
            tree.spec_tokens(),
            marks_of(tree),
            options,
        ) && without_whitespace(out@) == without_whitespace(bytes) && ends_lines(out@),
        Err(FormatError::InvalidIndentWidth(w)) => !valid_options(options) && *w == options.indent_width,
        Err(FormatError::GenericAssemblyRequiresSemantics) => valid_options(options) && options.assembly
            == AssemblyStyle::Generic,
        Err(_) => false,
    }
}

impl ParsedFile {
    /// The file's text laid out anew from its syntax; names, comments and
    /// custom spellings stay as the source has them.
    pub fn formatted_bytes(&self, options: FormatOptions) -> (r: Result<Vec<u8>, FormatError>)
        ensures
            formats_as(self.spec_bytes(), self.spec_syntax().spec_tree(), options, &r),
    {
        proof {
            use_type_invariant(self);
        }
        match validate_options(options) {
            Ok(()) => {},
            Err(e) => {
                return Err(e);
            },
        }
        if options.assembly == AssemblyStyle::Generic {
            return Err(FormatError::GenericAssemblyRequiresSemantics);
        }
        format_syntax(self.original_bytes(), self.syntax().tree(), options)
    }

    /// Appends the formatted text of the file to `sink`; on an error `sink` is
    /// left as it was.
    pub fn write_formatted(&self, sink: &mut Vec<u8>, options: FormatOptions) -> (r: Result<(), FormatError>)
        ensures
            match r {
                Ok(()) => exists|out: Vec<u8>|
                    formats_as(self.spec_bytes(), self.spec_syntax().spec_tree(), options, &Ok(out)) && final(sink)@ == old(sink)@ + out@,
                Err(e) => final(sink)@ == old(sink)@ && formats_as(self.spec_bytes(), self.spec_syntax().spec_tree(), options, &Err(e)),
            },
    {
        match self.formatted_bytes(options) {
            Ok(out) => {
                let ghost formatted = out;
                let ghost before = sink@;
                let mut k: usize = 0;
                while k < out.len()
                    invariant
                        k <= out@.len(),
                        sink@ == before + out@.subrange(0, k as int),
                    decreases out@.len() - k,
                {
                    sink.push(out[k]);
                    k = k + 1;
                    proof {
                        assert(sink@ =~= before + out@.subrange(0, k as int));
                    }
                }
                proof {
                    assert(out@.subrange(0, k as int) =~= out@);
                }
                Ok(())
            },
            Err(e) => Err(e),
        }
    }
}

} // verus!
