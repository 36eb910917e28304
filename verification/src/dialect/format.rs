//! Declarative operation-format descriptions, such as
//! `$operands attr-dict `:` type($operands) `->` type($results)`.

use vstd::prelude::*;
use crate::lexer::{self, spec_lex, spec_is_whitespace, ByteClass, run_end};
use crate::representation::SyntaxKind;
use crate::source::Source;
use vstd::slice::slice_subrange;
use vstd::string::StringSliceAdditionalSpecFns;
use vstd::utf8::encode_utf8;

verus! {

#[derive(Clone, Copy, Debug, PartialEq, Eq, Structural)]
pub enum FormatCapture {
    Operands,
    Operand(usize),
    Value,
    Callee,
}

#[derive(Clone, Copy, Debug, PartialEq, Eq, Structural)]
pub enum FormatTarget {
    Operands,
    Operand(usize),
    Results,
    Result,
    Value,
}

/// Why a format description was rejected; offsets are byte positions in it.
#[derive(Clone, Copy, Debug, PartialEq, Eq, Structural)]
pub enum FormatError {
    UnterminatedLiteral { offset: usize },
    InvalidLiteral { offset: usize },
    LiteralNotOneToken { offset: usize },
    UnterminatedTypeDirective { offset: usize },
    TypesOnlyAcceptsOperands { offset: usize },
    UnknownDirective { offset: usize },
    UnknownTypeTarget { offset: usize },
    EmptyOrDuplicateTargets { offset: usize },
    Empty,
    RepeatedAttributeDictionary,
    RepeatedValueOrCallee,
    MixedOperands,
    RepeatedOperands,
    UnorderedOperands,
    ValueWithOperands,
    MisplacedValueType,
    OperandsTypeWithoutCapture,
    UncapturedOperandType { index: usize },
    ValueTypeWithoutCapture,
    OverlappingTarget,
    RepeatedTarget,
}

#[derive(Clone, Debug, PartialEq, Eq)]
pub struct FormatTypeCapture {
    targets: Vec<FormatTarget>,
    per_operand_list: bool,
}

#[derive(Clone, Debug, PartialEq, Eq)]
pub enum FormatStep {
    Begin(SyntaxKind),
    Capture(FormatCapture),
    AttributeDictionary,
    Literal(Vec<u8>),
    Type(FormatTypeCapture),
    End(SyntaxKind),
}

/// The mathematical content of a type directive.
pub struct SpecTypeCapture {
    pub targets: Seq<FormatTarget>,
    pub per_operand_list: bool,
}

/// The mathematical content of a format step.
pub enum SpecFormatStep {
    Begin(SyntaxKind),
    Capture(FormatCapture),
    AttributeDictionary,
    Literal(Seq<u8>),
    Type(SpecTypeCapture),
    End(SyntaxKind),
}

impl View for FormatTypeCapture {
    type V = SpecTypeCapture;

    closed spec fn view(&self) -> SpecTypeCapture {
        SpecTypeCapture { targets: self.targets@, per_operand_list: self.per_operand_list }
    }
}

impl View for FormatStep {
    type V = SpecFormatStep;

    open spec fn view(&self) -> SpecFormatStep {
        match self {
            FormatStep::Begin(k) => SpecFormatStep::Begin(*k),
            FormatStep::Capture(c) => SpecFormatStep::Capture(*c),
            FormatStep::AttributeDictionary => SpecFormatStep::AttributeDictionary,
            FormatStep::Literal(l) => SpecFormatStep::Literal(l@),
            FormatStep::Type(t) => SpecFormatStep::Type(t@),
            FormatStep::End(k) => SpecFormatStep::End(*k),
        }
    }
}

pub open spec fn step_views(steps: Seq<FormatStep>) -> Seq<SpecFormatStep> {
    steps.map_values(|s: FormatStep| s@)
}

impl FormatTypeCapture {
    pub fn targets(&self) -> (r: &[FormatTarget])
        ensures
            r@ == self@.targets,
    {
        self.targets.as_slice()
    }

    pub fn is_per_operand_list(&self) -> (r: bool)
        ensures
            r == self@.per_operand_list,
    {
        self.per_operand_list
    }

    /// A single `$operands` or `$results` target may be written as a parenthesized list.
    pub fn accepts_parenthesized_list(&self) -> (r: bool)
        ensures
            r == (!self@.per_operand_list && self@.targets.len() == 1 && (self@.targets[0]
                == FormatTarget::Operands || self@.targets[0] == FormatTarget::Results)),
    {
        !self.per_operand_list && self.targets.len() == 1 && (self.targets[0]
            == FormatTarget::Operands || self.targets[0] == FormatTarget::Results)
    }
}


// ---------------------------------------------------------------------------
// Byte-level text helpers.

/// Whether `w` occurs in `d` at `o`.
pub open spec fn starts_with_at(d: Seq<u8>, o: int, w: Seq<u8>) -> bool {
    0 <= o && o + w.len() <= d.len() && d.subrange(o, o + w.len()) == w
}

/// The first position at or after `from` holding `byte`.
pub open spec fn find_byte(d: Seq<u8>, from: int, byte: u8) -> Option<int>
    decreases d.len() - from,
{
    if from < 0 || from >= d.len() {
        None
    } else if d[from] == byte {
        Some(from)
    } else {
        find_byte(d, from + 1, byte)
    }
}

/// The UTF-8 length of a Unicode white-space character starting at `i`, or 0.
pub open spec fn ws_len_at(d: Seq<u8>, i: int) -> int {
    if i < 0 || i >= d.len() {
        0
    } else if 0x09 <= d[i] <= 0x0d || d[i] == 0x20 {
        1
    } else if d.len() - i > 1 && d[i] == 0xc2 && (d[i + 1] == 0x85 || d[i + 1] == 0xa0) {
        2
    } else if d.len() - i > 2 && ((d[i] == 0xe1 && d[i + 1] == 0x9a && d[i + 2] == 0x80) || (d[i]
        == 0xe2 && d[i + 1] == 0x80 && (0x80 <= d[i + 2] <= 0x8a || d[i + 2] == 0xa8 || d[i + 2]
        == 0xa9 || d[i + 2] == 0xaf)) || (d[i] == 0xe2 && d[i + 1] == 0x81 && d[i + 2] == 0x9f)
        || (d[i] == 0xe3 && d[i + 1] == 0x80 && d[i + 2] == 0x80)) {
        3
    } else {
        0
    }
}

/// The UTF-8 length of a Unicode white-space character ending just before `j`, or 0.
pub open spec fn ws_len_before(d: Seq<u8>, j: int) -> int {
    if j >= 1 && j <= d.len() && ws_len_at(d, j - 1) == 1 {
        1
    } else if j >= 2 && j <= d.len() && ws_len_at(d, j - 2) == 2 {
        2
    } else if j >= 3 && j <= d.len() && ws_len_at(d, j - 3) == 3 {
        3
    } else {
        0
    }
}

fn ws_len_at_exec(d: &[u8], i: usize) -> (r: usize)
    ensures
        r == ws_len_at(d@, i as int),
{
    if i >= d.len() {
        0
    } else if (0x09 <= d[i] && d[i] <= 0x0d) || d[i] == 0x20 {
        1
    } else if d.len() - i > 1 && d[i] == 0xc2 && (d[i + 1] == 0x85 || d[i + 1] == 0xa0) {
        2
    } else if d.len() - i > 2 && ((d[i] == 0xe1 && d[i + 1] == 0x9a && d[i + 2] == 0x80) || (
    d[i] == 0xe2 && d[i + 1] == 0x80 && ((0x80 <= d[i + 2] && d[i + 2] <= 0x8a) || d[i + 2]
        == 0xa8 || d[i + 2] == 0xa9 || d[i + 2] == 0xaf)) || (d[i] == 0xe2 && d[i + 1] == 0x81
        && d[i + 2] == 0x9f) || (d[i] == 0xe3 && d[i + 1] == 0x80 && d[i + 2] == 0x80)) {
        3
    } else {
        0
    }
}

fn ws_len_before_exec(d: &[u8], j: usize) -> (r: usize)
    ensures
        r == ws_len_before(d@, j as int),
{
    if j >= 1 && j <= d.len() && ws_len_at_exec(d, j - 1) == 1 {
        1
    } else if j >= 2 && j <= d.len() && ws_len_at_exec(d, j - 2) == 2 {
        2
    } else if j >= 3 && j <= d.len() && ws_len_at_exec(d, j - 3) == 3 {
        3
    } else {
        0
    }
}

/// Where a word starting at `o` ends: at the next white-space character.
pub open spec fn word_end(d: Seq<u8>, o: int) -> int
    decreases d.len() - o,
{
    if o < 0 || o >= d.len() || ws_len_at(d, o) > 0 {
        o
    } else {
        word_end(d, o + 1)
    }
}

/// Where `t` continues after skipping white-space characters from `lo`.
pub open spec fn trim_start(t: Seq<u8>, lo: int) -> int
    decreases t.len() - lo,
{
    if lo < 0 || lo >= t.len() || ws_len_at(t, lo) == 0 {
        lo
    } else {
        trim_start(t, lo + ws_len_at(t, lo))
    }
}

/// Where `u` ends after dropping white-space characters that end at `hi`.
pub open spec fn trim_end(u: Seq<u8>, hi: int) -> int
    decreases hi,
{
    if hi <= 0 || ws_len_before(u, hi) == 0 {
        hi
    } else {
        trim_end(u, hi - ws_len_before(u, hi))
    }
}

/// `t` without leading and trailing Unicode white space.
pub open spec fn trimmed(t: Seq<u8>) -> Seq<u8> {
    let u = t.subrange(trim_start(t, 0), t.len() as int);
    u.subrange(0, trim_end(u, u.len() as int))
}

proof fn lemma_trim_start_bounds(t: Seq<u8>, lo: int)
    requires
        0 <= lo <= t.len(),
    ensures
        lo <= trim_start(t, lo) <= t.len(),
    decreases t.len() - lo,
{
    if lo < t.len() && ws_len_at(t, lo) != 0 {
        lemma_trim_start_bounds(t, lo + ws_len_at(t, lo));
    }
}

proof fn lemma_trim_end_bounds(u: Seq<u8>, hi: int)
    requires
        0 <= hi <= u.len(),
    ensures
        0 <= trim_end(u, hi) <= hi,
    decreases hi,
{
    if hi > 0 && ws_len_before(u, hi) != 0 {
        lemma_trim_end_bounds(u, hi - ws_len_before(u, hi));
    }
}

/// Copies `t` without leading and trailing Unicode white space.
fn trim(t: &[u8]) -> (r: Vec<u8>)
    ensures
        r@ == trimmed(t@),
{
    let mut lo: usize = 0;
    while lo < t.len() && ws_len_at_exec(t, lo) != 0
        invariant
            lo <= t@.len(),
            trim_start(t@, 0) == trim_start(t@, lo as int),
        decreases t@.len() - lo,
    {
        lo = lo + ws_len_at_exec(t, lo);
    }
    let u = slice_subrange(t, lo, t.len());
    let mut hi: usize = u.len();
    while hi > 0 && ws_len_before_exec(u, hi) != 0
        invariant
            hi <= u@.len(),
            trim_end(u@, u@.len() as int) == trim_end(u@, hi as int),
        decreases hi,
    {
        hi = hi - ws_len_before_exec(u, hi);
    }
    slice_to_vec(slice_subrange(u, 0, hi))
}

/// Copies a slice into a fresh vector.
pub(crate) fn slice_to_vec(s: &[u8]) -> (r: Vec<u8>)
    ensures
        r@ == s@,
{
    let mut v: Vec<u8> = Vec::new();
    let mut i: usize = 0;
    while i < s.len()
        invariant
            i <= s@.len(),
            v@ == s@.subrange(0, i as int),
        decreases s@.len() - i,
    {
        v.push(s[i]);
        i = i + 1;
        proof {
            assert(v@ =~= s@.subrange(0, i as int));
        }
    }
    proof {
        assert(s@.subrange(0, s@.len() as int) =~= s@);
    }
    v
}


/// The first position at or after `from` holding `byte`.
fn find_byte_exec(d: &[u8], from: usize, byte: u8) -> (r: Option<usize>)
    ensures
        r == (match find_byte(d@, from as int, byte) {
            Some(i) => Some(i as usize),
            None => None::<usize>,
        }),
        r matches Some(i) ==> from <= i < d@.len() && d@[i as int] == byte,
{
    let mut i = from;
    while i < d.len()
        invariant
            from <= i,
            find_byte(d@, from as int, byte) == find_byte(d@, i as int, byte),
        decreases d@.len() - i,
    {
        if d[i] == byte {
            return Some(i);
        }
        i = i + 1;
    }
    None
}

fn word_end_exec(d: &[u8], o: usize) -> (r: usize)
    requires
        o <= d@.len(),
    ensures
        r == word_end(d@, o as int),
        o <= r <= d@.len(),
{
    let mut i = o;
    while i < d.len() && ws_len_at_exec(d, i) == 0
        invariant
            o <= i <= d@.len(),
            word_end(d@, o as int) == word_end(d@, i as int),
        decreases d@.len() - i,
    {
        i = i + 1;
    }
    i
}

fn starts_with_exec(d: &[u8], o: usize, w: &[u8]) -> (r: bool)
    ensures
        r == starts_with_at(d@, o as int, w@),
{
    if o > d.len() || d.len() - o < w.len() {
        return false;
    }
    lexer::word_is(d, o, o + w.len(), w)
}

/// The value of a run of decimal digits.
pub open spec fn digits_value(s: Seq<u8>) -> nat
    decreases s.len(),
{
    if s.len() == 0 {
        0
    } else {
        digits_value(s.drop_last()) * 10 + (s.last() - 0x30) as nat
    }
}

/// A decimal `usize` with an optional leading `+`, as `str::parse` reads it.
pub open spec fn parse_usize(s: Seq<u8>) -> Option<usize> {
    let body = if s.len() > 0 && s[0] == 0x2b {
        s.drop_first()
    } else {
        s
    };
    if body.len() == 0 || !lexer::all_digits(body) || digits_value(body) > usize::MAX {
        None
    } else {
        Some(digits_value(body) as usize)
    }
}

proof fn lemma_digits_value_prefix(s: Seq<u8>, k: int)
    requires
        0 <= k <= s.len(),
        lexer::all_digits(s),
    ensures
        digits_value(s.subrange(0, k)) <= digits_value(s),
    decreases s.len() - k,
{
    if k < s.len() {
        lemma_digits_value_prefix(s, k + 1);
        let p = s.subrange(0, k + 1);
        assert(p.drop_last() =~= s.subrange(0, k));
        assert(lexer::spec_is_digit(s[k]));
    } else {
        assert(s.subrange(0, k) =~= s);
    }
}

pub(crate) fn parse_usize_exec(s: &[u8]) -> (r: Option<usize>)
    ensures
        r == parse_usize(s@),
{
    let start: usize = if s.len() > 0 && s[0] == 0x2b {
        1
    } else {
        0
    };
    let ghost body = if s@.len() > 0 && s@[0] == 0x2b {
        s@.drop_first()
    } else {
        s@
    };
    proof {
        assert(body =~= s@.subrange(start as int, s@.len() as int));
    }
    if start == s.len() {
        proof {
            assert(body.len() == 0);
        }
        return None;
    }
    let mut value: usize = 0;
    let mut i = start;
    while i < s.len()
        invariant
            start <= i <= s@.len(),
            body == s@.subrange(start as int, s@.len() as int),
            body == (if s@.len() > 0 && s@[0] == 0x2b {
                s@.drop_first()
            } else {
                s@
            }),
            lexer::all_digits(s@.subrange(start as int, i as int)),
            value as nat == digits_value(s@.subrange(start as int, i as int)),
        decreases s@.len() - i,
    {
        if !lexer::is_digit(s[i]) {
            proof {
                assert(body[i - start] == s@[i as int]);
                assert(!lexer::spec_is_digit(body[i - start]));
            }
            return None;
        }
        let ghost prefix = s@.subrange(start as int, i + 1);
        proof {
            assert(prefix.drop_last() =~= s@.subrange(start as int, i as int));
        }
        let digit = (s[i] - 0x30) as usize;
        match value.checked_mul(10) {
            Some(scaled) => match scaled.checked_add(digit) {
                Some(next) => {
                    value = next;
                },
                None => {
                    proof {
                        lemma_overflow_poisons(s@, start as int, i as int);
                    }
                    return None;
                },
            },
            None => {
                proof {
                    lemma_overflow_poisons(s@, start as int, i as int);
                }
                return None;
            },
        }
        i = i + 1;
        proof {
            assert(lexer::all_digits(s@.subrange(start as int, i as int))) by {
                assert forall|k: int| 0 <= k < i - start implies lexer::spec_is_digit(
                    #[trigger] s@.subrange(start as int, i as int)[k],
                ) by {
                    if k < i - 1 - start {
                        assert(s@.subrange(start as int, i as int)[k] == s@.subrange(
                            start as int,
                            i - 1,
                        )[k]);
                    }
                }
            }
        }
    }
    proof {
        assert(s@.subrange(start as int, i as int) =~= body);
    }
    Some(value)
}

/// A prefix whose value overflows makes the whole number overflow or be malformed.
proof fn lemma_overflow_poisons(s: Seq<u8>, start: int, i: int)
    requires
        0 <= start <= i < s.len(),
        lexer::spec_is_digit(s[i]),
        digits_value(s.subrange(start, i + 1)) > usize::MAX,
    ensures
        ({
            let body = s.subrange(start, s.len() as int);
            !lexer::all_digits(body) || digits_value(body) > usize::MAX
        }),
{
    let body = s.subrange(start, s.len() as int);
    if lexer::all_digits(body) {
        lemma_digits_value_prefix(body, i + 1 - start);
        assert(body.subrange(0, i + 1 - start) =~= s.subrange(start, i + 1));
    }
}

pub open spec fn operands_word() -> Seq<u8> {
    seq![0x24u8, 0x6f, 0x70, 0x65, 0x72, 0x61, 0x6e, 0x64, 0x73]
}

pub open spec fn results_word() -> Seq<u8> {
    seq![0x24u8, 0x72, 0x65, 0x73, 0x75, 0x6c, 0x74, 0x73]
}

pub open spec fn result_word() -> Seq<u8> {
    seq![0x24u8, 0x72, 0x65, 0x73, 0x75, 0x6c, 0x74]
}

pub open spec fn value_word() -> Seq<u8> {
    seq![0x24u8, 0x76, 0x61, 0x6c, 0x75, 0x65]
}

pub open spec fn callee_word() -> Seq<u8> {
    seq![0x24u8, 0x63, 0x61, 0x6c, 0x6c, 0x65, 0x65]
}

pub open spec fn attr_dict_word() -> Seq<u8> {
    seq![0x61u8, 0x74, 0x74, 0x72, 0x2d, 0x64, 0x69, 0x63, 0x74]
}

pub open spec fn operands_bracket_word() -> Seq<u8> {
    seq![0x24u8, 0x6f, 0x70, 0x65, 0x72, 0x61, 0x6e, 0x64, 0x73, 0x5b]
}

/// `$operands[N]`: the index `N`.
pub open spec fn operand_index(w: Seq<u8>) -> Option<usize> {
    if w.len() >= 11 && w.subrange(0, 10) == operands_bracket_word() && w.last() == 0x5d {
        parse_usize(w.subrange(10, w.len() - 1))
    } else {
        None
    }
}

fn operand_index_exec(w: &[u8]) -> (r: Option<usize>)
    ensures
        r == operand_index(w@),
{
    if w.len() >= 11 && lexer::word_is(
        w,
        0,
        10,
        &[0x24, 0x6f, 0x70, 0x65, 0x72, 0x61, 0x6e, 0x64, 0x73, 0x5b],
    ) && w[w.len() - 1] == 0x5d {
        parse_usize_exec(slice_subrange(w, 10, w.len() - 1))
    } else {
        None
    }
}

/// The target that a (trimmed) type-directive argument names.
pub open spec fn target_of(w: Seq<u8>) -> Option<FormatTarget> {
    if w == operands_word() {
        Some(FormatTarget::Operands)
    } else if w == results_word() {
        Some(FormatTarget::Results)
    } else if w == result_word() {
        Some(FormatTarget::Result)
    } else if w == value_word() {
        Some(FormatTarget::Value)
    } else {
        match operand_index(w) {
            Some(i) => Some(FormatTarget::Operand(i)),
            None => None,
        }
    }
}

fn target_of_exec(w: &[u8]) -> (r: Option<FormatTarget>)
    ensures
        r == target_of(w@),
{
    let n = w.len();
    if lexer::word_is(w, 0, n, &[0x24, 0x6f, 0x70, 0x65, 0x72, 0x61, 0x6e, 0x64, 0x73]) {
        proof {
            assert(w@.subrange(0, n as int) =~= w@);
        }
        return Some(FormatTarget::Operands);
    }
    if lexer::word_is(w, 0, n, &[0x24, 0x72, 0x65, 0x73, 0x75, 0x6c, 0x74, 0x73]) {
        proof {
            assert(w@.subrange(0, n as int) =~= w@);
        }
        return Some(FormatTarget::Results);
    }
    if lexer::word_is(w, 0, n, &[0x24, 0x72, 0x65, 0x73, 0x75, 0x6c, 0x74]) {
        proof {
            assert(w@.subrange(0, n as int) =~= w@);
        }
        return Some(FormatTarget::Result);
    }
    if lexer::word_is(w, 0, n, &[0x24, 0x76, 0x61, 0x6c, 0x75, 0x65]) {
        proof {
            assert(w@.subrange(0, n as int) =~= w@);
        }
        return Some(FormatTarget::Value);
    }
    proof {
        assert(w@.subrange(0, n as int) =~= w@);
    }
    match operand_index_exec(w) {
        Some(i) => Some(FormatTarget::Operand(i)),
        None => None,
    }
}

/// The comma-separated pieces of `t` from `start` on.
pub open spec fn split_commas_from(t: Seq<u8>, start: int) -> Seq<Seq<u8>>
    decreases t.len() - start,
{
    if start < 0 || start > t.len() {
        seq![]
    } else {
        match find_byte(t, start, 0x2c) {
            Some(i) => if i < start || i >= t.len() {
                seq![]
            } else {
                seq![t.subrange(start, i)] + split_commas_from(t, i + 1)
            },
            None => seq![t.subrange(start, t.len() as int)],
        }
    }
}

/// The targets named by the trimmed `pieces`, or `None` if one names none.
pub open spec fn targets_of(pieces: Seq<Seq<u8>>) -> Option<Seq<FormatTarget>>
    decreases pieces.len(),
{
    if pieces.len() == 0 {
        Some(seq![])
    } else {
        match (target_of(trimmed(pieces[0])), targets_of(pieces.drop_first())) {
            (Some(t), Some(rest)) => Some(seq![t] + rest),
            _ => None,
        }
    }
}

pub open spec fn has_duplicates(ts: Seq<FormatTarget>) -> bool {
    exists|i: int, j: int| 0 <= i < j < ts.len() && ts[i] == ts[j]
}

/// The targets of `type(...)` whose argument text is `text`.
pub open spec fn parse_targets(text: Seq<u8>, offset: int) -> Result<
    Seq<FormatTarget>,
    FormatError,
> {
    match targets_of(split_commas_from(text, 0)) {
        None => Err(FormatError::UnknownTypeTarget { offset: offset as usize }),
        Some(ts) => if ts.len() == 0 || has_duplicates(ts) {
            Err(FormatError::EmptyOrDuplicateTargets { offset: offset as usize })
        } else {
            Ok(ts)
        },
    }
}

proof fn lemma_find_byte_bounds(d: Seq<u8>, from: int, byte: u8)
    requires
        0 <= from,
    ensures
        find_byte(d, from, byte) matches Some(i) ==> from <= i < d.len() && d[i] == byte
            && forall|k: int| from <= k < i ==> d[k] != byte,
        find_byte(d, from, byte) is None ==> forall|k: int| from <= k < d.len() ==> d[k] != byte,
    decreases d.len() - from,
{
    if 0 <= from < d.len() && d[from] != byte {
        lemma_find_byte_bounds(d, from + 1, byte);
    }
}

proof fn lemma_targets_of_append(pieces: Seq<Seq<u8>>, p: Seq<u8>)
    ensures
        targets_of(pieces.push(p)) == (match (targets_of(pieces), target_of(trimmed(p))) {
            (Some(ts), Some(t)) => Some(ts.push(t)),
            _ => None,
        }),
    decreases pieces.len(),
{
    if pieces.len() == 0 {
        assert(pieces.push(p).drop_first() =~= Seq::<Seq<u8>>::empty());
        assert(pieces.push(p)[0] == p);
    } else {
        assert(pieces.push(p).drop_first() =~= pieces.drop_first().push(p));
        assert(pieces.push(p)[0] == pieces[0]);
        lemma_targets_of_append(pieces.drop_first(), p);
        match (target_of(trimmed(pieces[0])), targets_of(pieces.drop_first()), target_of(trimmed(p))) {
            (Some(a), Some(rest), Some(t)) => {
                assert(seq![a] + rest.push(t) =~= (seq![a] + rest).push(t));
            },
            _ => {},
        }
    }
}

fn has_duplicates_exec(ts: &Vec<FormatTarget>) -> (r: bool)
    ensures
        r == has_duplicates(ts@),
{
    let mut i: usize = 0;
    while i < ts.len()
        invariant
            i <= ts@.len(),
            forall|a: int, b: int| 0 <= a < b < ts@.len() && a < i ==> ts@[a] != ts@[b],
        decreases ts@.len() - i,
    {
        let mut j: usize = i + 1;
        while j < ts.len()
            invariant
                i < ts@.len(),
                i < j <= ts@.len(),
                forall|a: int, b: int| 0 <= a < b < ts@.len() && a < i ==> ts@[a] != ts@[b],
                forall|b: int| i < b < j ==> ts@[i as int] != ts@[b],
            decreases ts@.len() - j,
        {
            if ts[i] == ts[j] {
                return true;
            }
            j = j + 1;
        }
        i = i + 1;
    }
    false
}

fn parse_targets_exec(d: &[u8], lo: usize, hi: usize, offset: usize) -> (r: Result<
    Vec<FormatTarget>,
    FormatError,
>)
    requires
        lo <= hi <= d@.len(),
    ensures
        match (r, parse_targets(d@.subrange(lo as int, hi as int), offset as int)) {
            (Ok(ts), Ok(spec_ts)) => ts@ == spec_ts,
            (Err(e), Err(spec_e)) => e == spec_e,
            _ => false,
        },
{
    let text = slice_subrange(d, lo, hi);
    let mut targets: Vec<FormatTarget> = Vec::new();
    let mut start: usize = 0;
    let ghost all = split_commas_from(text@, 0);
    let ghost mut done: Seq<Seq<u8>> = seq![];
    loop
        invariant_except_break
            all == done + split_commas_from(text@, start as int),
        invariant
            start <= text@.len(),
            all == split_commas_from(text@, 0),
            text@ == d@.subrange(lo as int, hi as int),
            targets_of(done) == Some(targets@),
        ensures
            all == done,
        decreases text@.len() - start,
    {
        let comma = find_byte_exec(text, start, 0x2c);
        proof {
            lemma_find_byte_bounds(text@, start as int, 0x2c);
        }
        let end = match comma {
            Some(i) => i,
            None => text.len(),
        };
        let piece = trim(slice_subrange(text, start, end));
        let ghost raw = text@.subrange(start as int, end as int);
        proof {
            lemma_targets_of_append(done, raw);
        }
        match target_of_exec(piece.as_slice()) {
            Some(t) => {
                targets.push(t);
            },
            None => {
                proof {
                    lemma_targets_of_none(done.push(raw), split_commas_from(text@, end + 1), comma is Some);
                    if comma is Some {
                        assert(all =~= done.push(raw) + split_commas_from(text@, end + 1));
                    } else {
                        assert(all =~= done.push(raw));
                    }
                }
                return Err(FormatError::UnknownTypeTarget { offset });
            },
        }
        proof {
            done = done.push(raw);
        }
        match comma {
            Some(i) => {
                let n = text.len();
                assert(i < n);
                proof {
                    assert(split_commas_from(text@, start as int) =~= seq![raw] + split_commas_from(
                        text@,
                        i + 1,
                    ));
                    assert(all =~= done + split_commas_from(text@, i + 1));
                }
                start = i + 1;
            },
            None => {
                proof {
                    assert(all =~= done);
                }
                break ;
            },
        }
    }
    if targets.len() == 0 || has_duplicates_exec(&targets) {
        return Err(FormatError::EmptyOrDuplicateTargets { offset });
    }
    Ok(targets)
}

proof fn lemma_targets_of_none(a: Seq<Seq<u8>>, b: Seq<Seq<u8>>, with_rest: bool)
    requires
        targets_of(a) is None,
    ensures
        targets_of(a + b) is None,
        targets_of(a) is None,
    decreases a.len(),
{
    if a.len() > 0 {
        assert((a + b).drop_first() =~= a.drop_first() + b);
        assert((a + b)[0] == a[0]);
        if targets_of(a.drop_first()) is None {
            lemma_targets_of_none(a.drop_first(), b, with_rest);
        }
    }
}


// ---------------------------------------------------------------------------
// Scanning a description into raw steps.

/// Why a backtick literal is not a single MLIR token, if it is not.
pub open spec fn literal_error(lit: Seq<u8>, offset: int) -> Option<FormatError> {
    if lit.len() == 0 || (exists|i: int| 0 <= i < lit.len() && spec_is_whitespace(lit[i])) {
        Some(FormatError::InvalidLiteral { offset: offset as usize })
    } else if lit.len() > u32::MAX {
        Some(FormatError::InvalidLiteral { offset: offset as usize })
    } else if spec_lex(lit, u32::MAX as int, usize::MAX as int).1.len() != 0 || spec_lex(
        lit,
        u32::MAX as int,
        usize::MAX as int,
    ).0.len() != 2 {
        Some(FormatError::LiteralNotOneToken { offset: offset as usize })
    } else {
        None
    }
}

fn validate_literal(d: &[u8], lo: usize, hi: usize, offset: usize) -> (r: Option<FormatError>)
    requires
        lo <= hi <= d@.len(),
    ensures
        r == literal_error(d@.subrange(lo as int, hi as int), offset as int),
{
    let ghost lit = d@.subrange(lo as int, hi as int);
    if lo == hi {
        return Some(FormatError::InvalidLiteral { offset });
    }
    let mut i = lo;
    while i < hi
        invariant
            lo <= i <= hi <= d@.len(),
            lit == d@.subrange(lo as int, hi as int),
            forall|k: int| 0 <= k < i - lo ==> !spec_is_whitespace(lit[k]),
        decreases hi - i,
    {
        if lexer::is_whitespace(d[i]) {
            proof {
                assert(lit[i - lo] == d@[i as int]);
            }
            return Some(FormatError::InvalidLiteral { offset });
        }
        i = i + 1;
    }
    let bytes = slice_to_vec(slice_subrange(d, lo, hi));
    match Source::new(bytes) {
        Err(_) => Some(FormatError::InvalidLiteral { offset }),
        Ok(source) => {
            let lexed = lexer::lex(&source);
            let diagnostics = lexed.diagnostics().len();
            let tokens = lexed.tokens().len();
            proof {
                assert(lexer::diagnostic_spans(lexed.spec_diagnostics()).len()
                    == lexed.spec_diagnostics().len());
                assert(lexer::token_spans(lexed.spec_tokens()).len() == lexed.spec_tokens().len());
            }
            if diagnostics != 0 || tokens != 2 {
                Some(FormatError::LiteralNotOneToken { offset })
            } else {
                None
            }
        },
    }
}

pub open spec fn type_word() -> Seq<u8> {
    seq![0x74u8, 0x79, 0x70, 0x65, 0x28]
}

pub open spec fn types_word() -> Seq<u8> {
    seq![0x74u8, 0x79, 0x70, 0x65, 0x73, 0x28]
}

/// The step that a plain word names, if any.
pub open spec fn word_step(w: Seq<u8>) -> Option<SpecFormatStep> {
    if w == operands_word() {
        Some(SpecFormatStep::Capture(FormatCapture::Operands))
    } else if operand_index(w) is Some {
        Some(SpecFormatStep::Capture(FormatCapture::Operand(operand_index(w).unwrap())))
    } else if w == value_word() {
        Some(SpecFormatStep::Capture(FormatCapture::Value))
    } else if w == callee_word() {
        Some(SpecFormatStep::Capture(FormatCapture::Callee))
    } else if w == attr_dict_word() {
        Some(SpecFormatStep::AttributeDictionary)
    } else {
        None
    }
}

fn word_step_exec(d: &[u8], lo: usize, hi: usize) -> (r: Option<FormatStep>)
    requires
        lo <= hi <= d@.len(),
    ensures
        match (r, word_step(d@.subrange(lo as int, hi as int))) {
            (Some(step), Some(spec_step)) => step@ == spec_step,
            (None, None) => true,
            _ => false,
        },
{
    if lexer::word_is(d, lo, hi, &[0x24, 0x6f, 0x70, 0x65, 0x72, 0x61, 0x6e, 0x64, 0x73]) {
        return Some(FormatStep::Capture(FormatCapture::Operands));
    }
    if let Some(index) = operand_index_exec(slice_subrange(d, lo, hi)) {
        return Some(FormatStep::Capture(FormatCapture::Operand(index)));
    }
    if lexer::word_is(d, lo, hi, &[0x24, 0x76, 0x61, 0x6c, 0x75, 0x65]) {
        return Some(FormatStep::Capture(FormatCapture::Value));
    }
    if lexer::word_is(d, lo, hi, &[0x24, 0x63, 0x61, 0x6c, 0x6c, 0x65, 0x65]) {
        return Some(FormatStep::Capture(FormatCapture::Callee));
    }
    if lexer::word_is(d, lo, hi, &[0x61, 0x74, 0x74, 0x72, 0x2d, 0x64, 0x69, 0x63, 0x74]) {
        return Some(FormatStep::AttributeDictionary);
    }
    None
}

/// `prefix` in front of a successful result; errors pass through.
pub open spec fn prepend(prefix: Seq<SpecFormatStep>, r: Result<Seq<SpecFormatStep>, FormatError>) -> Result<
    Seq<SpecFormatStep>,
    FormatError,
> {
    match r {
        Ok(rest) => Ok(prefix + rest),
        Err(e) => Err(e),
    }
}

/// The backtick literal opening at `o`, and where scanning resumes after it.
pub open spec fn scan_literal_at(d: Seq<u8>, o: int) -> Result<(SpecFormatStep, int), FormatError> {
    match find_byte(d, o + 1, 0x60) {
        None => Err(FormatError::UnterminatedLiteral { offset: o as usize }),
        Some(e) => match literal_error(d.subrange(o + 1, e), o + 1) {
            Some(x) => Err(x),
            None => Ok((SpecFormatStep::Literal(d.subrange(o + 1, e)), e + 1)),
        },
    }
}

/// The `type(...)` (or, with `per`, `types(...)`) directive at `o`.
pub open spec fn scan_type_at(d: Seq<u8>, o: int, per: bool) -> Result<(SpecFormatStep, int), FormatError> {
    let open: int = if per {
        5
    } else {
        4
    };
    match find_byte(d, o + open + 1, 0x29) {
        None => Err(FormatError::UnterminatedTypeDirective { offset: o as usize }),
        Some(c) => match parse_targets(d.subrange(o + open + 1, c), o + open + 1) {
            Err(x) => Err(x),
            Ok(ts) => if per && ts != seq![FormatTarget::Operands] {
                Err(FormatError::TypesOnlyAcceptsOperands { offset: o as usize })
            } else {
                Ok((SpecFormatStep::Type(SpecTypeCapture { targets: ts, per_operand_list: per }), c + 1))
            },
        },
    }
}

/// The plain word starting at `o`, which runs to the next white-space character.
pub open spec fn scan_word_at(d: Seq<u8>, o: int) -> Result<(SpecFormatStep, int), FormatError> {
    let end = word_end(d, o);
    match word_step(d.subrange(o, end)) {
        None => Err(FormatError::UnknownDirective { offset: o as usize }),
        Some(step) => Ok((step, end)),
    }
}

/// The element that starts after the white space at `offset`: `None` at the end of the text.
pub open spec fn scan_one(d: Seq<u8>, offset: int) -> Result<Option<(SpecFormatStep, int)>, FormatError> {
    let o = run_end(d, offset, ByteClass::Whitespace);
    if o >= d.len() {
        Ok(None)
    } else {
        let r = if d[o] == 0x60 {
            scan_literal_at(d, o)
        } else if starts_with_at(d, o, type_word()) || starts_with_at(d, o, types_word()) {
            scan_type_at(d, o, starts_with_at(d, o, types_word()))
        } else {
            scan_word_at(d, o)
        };
        match r {
            Ok(x) => Ok(Some(x)),
            Err(e) => Err(e),
        }
    }
}

/// The raw steps of `d` from `offset` on, or the first error met.
pub open spec fn scan_from(d: Seq<u8>, offset: int) -> Result<Seq<SpecFormatStep>, FormatError>
    decreases d.len() - offset,
{
    match scan_one(d, offset) {
        Err(e) => Err(e),
        Ok(None) => Ok(seq![]),
        Ok(Some((step, next))) => if next <= offset || next > d.len() {
            Ok(seq![])
        } else {
            prepend(seq![step], scan_from(d, next))
        },
    }
}

/// The raw steps of a whole description; an empty description is an error.
pub open spec fn spec_scan(d: Seq<u8>) -> Result<Seq<SpecFormatStep>, FormatError> {
    match scan_from(d, 0) {
        Ok(steps) => if steps.len() == 0 {
            Err(FormatError::Empty)
        } else {
            Ok(steps)
        },
        Err(e) => Err(e),
    }
}

proof fn lemma_word_end_bounds(d: Seq<u8>, o: int)
    requires
        0 <= o <= d.len(),
    ensures
        o <= word_end(d, o) <= d.len(),
    decreases d.len() - o,
{
    if o < d.len() && ws_len_at(d, o) == 0 {
        lemma_word_end_bounds(d, o + 1);
    }
}

proof fn lemma_prepend_assoc(a: Seq<SpecFormatStep>, b: Seq<SpecFormatStep>, r: Result<Seq<SpecFormatStep>, FormatError>)
    ensures
        prepend(a, prepend(b, r)) == prepend(a + b, r),
{
    if let Ok(rest) = r {
        assert(a + (b + rest) =~= (a + b) + rest);
    }
}

/// Whether an exec scan result is the spec one: equal errors, or an equal step
/// that ends after `o` within the text.
pub open spec fn scanned_as(
    r: Result<(FormatStep, usize), FormatError>,
    spec: Result<(SpecFormatStep, int), FormatError>,
    o: int,
    len: int,
) -> bool {
    match (r, spec) {
        (Ok((step, next)), Ok((spec_step, spec_next))) => step@ == spec_step && next == spec_next
            && o < next <= len,
        (Err(e), Err(spec_e)) => e == spec_e,
        _ => false,
    }
}

fn scan_literal(d: &[u8], o: usize) -> (r: Result<(FormatStep, usize), FormatError>)
    requires
        o < d@.len(),
        d@[o as int] == 0x60,
    ensures
        scanned_as(r, scan_literal_at(d@, o as int), o as int, d@.len() as int),
{
    let n = d.len();
    proof {
        lemma_find_byte_bounds(d@, o + 1, 0x60);
    }
    let e = match find_byte_exec(d, o + 1, 0x60) {
        None => {
            return Err(FormatError::UnterminatedLiteral { offset: o });
        },
        Some(e) => e,
    };
    if let Some(error) = validate_literal(d, o + 1, e, o + 1) {
        return Err(error);
    }
    let literal = slice_to_vec(slice_subrange(d, o + 1, e));
    Ok((FormatStep::Literal(literal), e + 1))
}

fn scan_type(d: &[u8], o: usize, is_types: bool) -> (r: Result<(FormatStep, usize), FormatError>)
    requires
        o < d@.len(),
        is_types ==> starts_with_at(d@, o as int, types_word()),
        !is_types ==> starts_with_at(d@, o as int, type_word()),
    ensures
        scanned_as(r, scan_type_at(d@, o as int, is_types), o as int, d@.len() as int),
{
    let n = d.len();
    let open: usize = if is_types {
        5
    } else {
        4
    };
    let close = match find_byte_exec(d, o + open + 1, 0x29) {
        None => {
            return Err(FormatError::UnterminatedTypeDirective { offset: o });
        },
        Some(c) => c,
    };
    proof {
        lemma_find_byte_bounds(d@, o + open + 1, 0x29);
    }
    let targets = match parse_targets_exec(d, o + open + 1, close, o + open + 1) {
        Err(error) => {
            return Err(error);
        },
        Ok(targets) => targets,
    };
    if is_types && !(targets.len() == 1 && targets[0] == FormatTarget::Operands) {
        proof {
            if targets@.len() == 1 && targets@[0] == FormatTarget::Operands {
                assert(targets@ =~= seq![FormatTarget::Operands]);
            }
        }
        return Err(FormatError::TypesOnlyAcceptsOperands { offset: o });
    }
    proof {
        if is_types {
            assert(targets@ =~= seq![FormatTarget::Operands]);
        }
    }
    let step = FormatStep::Type(FormatTypeCapture { targets, per_operand_list: is_types });
    Ok((step, close + 1))
}

fn scan_word(d: &[u8], o: usize) -> (r: Result<(FormatStep, usize), FormatError>)
    requires
        o < d@.len(),
    ensures
        scanned_as(r, scan_word_at(d@, o as int), o as int, d@.len() as int),
{
    let n = d.len();
    let end = word_end_exec(d, o);
    match word_step_exec(d, o, end) {
        None => Err(FormatError::UnknownDirective { offset: o }),
        Some(step) => {
            if end == o {
                proof {
                    assert(d@.subrange(o as int, end as int).len() == 0);
                }
            }
            Ok((step, end))
        },
    }
}

/// Scans one element at or after `offset`: `None` when only white space remains.
fn scan_element(d: &[u8], offset: usize) -> (r: Result<Option<(FormatStep, usize)>, FormatError>)
    requires
        offset <= d@.len(),
    ensures
        match (r, scan_one(d@, offset as int)) {
            (Ok(None), Ok(None)) => true,
            (Ok(Some((step, next))), Ok(Some((spec_step, spec_next)))) => step@ == spec_step
                && next == spec_next && offset < next <= d@.len(),
            (Err(e), Err(spec_e)) => e == spec_e,
            _ => false,
        },
{
    let mut o = offset;
    while o < d.len() && lexer::is_whitespace(d[o])
        invariant
            offset <= o <= d@.len(),
            run_end(d@, offset as int, ByteClass::Whitespace) == run_end(
                d@,
                o as int,
                ByteClass::Whitespace,
            ),
        decreases d@.len() - o,
    {
        o = o + 1;
    }
    proof {
        lexer::lemma_run_end_unique(d@, o as int, ByteClass::Whitespace, o as int);
    }
    if o == d.len() {
        return Ok(None);
    }
    let r = if d[o] == 0x60 {
        scan_literal(d, o)
    } else {
        let is_types = starts_with_exec(d, o, &[0x74, 0x79, 0x70, 0x65, 0x73, 0x28]);
        if is_types || starts_with_exec(d, o, &[0x74, 0x79, 0x70, 0x65, 0x28]) {
            scan_type(d, o, is_types)
        } else {
            scan_word(d, o)
        }
    };
    match r {
        Ok(x) => Ok(Some(x)),
        Err(e) => Err(e),
    }
}

fn scan(d: &[u8]) -> (r: Result<Vec<FormatStep>, FormatError>)
    ensures
        match (r, spec_scan(d@)) {
            (Ok(steps), Ok(spec_steps)) => step_views(steps@) == spec_steps,
            (Err(e), Err(spec_e)) => e == spec_e,
            _ => false,
        },
{
    let mut elements: Vec<FormatStep> = Vec::new();
    let mut offset: usize = 0;
    let ghost whole = scan_from(d@, 0);
    proof {
        assert(step_views(elements@) =~= Seq::<SpecFormatStep>::empty());
        assert(prepend(Seq::<SpecFormatStep>::empty(), whole) == whole) by {
            if let Ok(rest) = whole {
                assert(Seq::<SpecFormatStep>::empty() + rest =~= rest);
            }
        }
    }
    loop
        invariant_except_break
            whole == prepend(step_views(elements@), scan_from(d@, offset as int)),
        invariant
            offset <= d@.len(),
            whole == scan_from(d@, 0),
        ensures
            whole == Ok::<Seq<SpecFormatStep>, FormatError>(step_views(elements@)),
        decreases d@.len() - offset,
    {
        match scan_element(d, offset) {
            Err(e) => {
                assert(whole == Err::<Seq<SpecFormatStep>, FormatError>(e));
                return Err(e);
            },
            Ok(None) => {
                assert(scan_from(d@, offset as int) == Ok::<Seq<SpecFormatStep>, FormatError>(seq![]));
                assert(step_views(elements@) + Seq::<SpecFormatStep>::empty() =~= step_views(elements@));
                break ;
            },
            Ok(Some((step, next))) => {
                let ghost here = step_views(elements@);
                let ghost spec_step = step@;
                assert(scan_from(d@, offset as int) == prepend(seq![spec_step], scan_from(d@, next as int)));
                elements.push(step);
                proof {
                    lemma_prepend_assoc(here, seq![spec_step], scan_from(d@, next as int));
                    assert(step_views(elements@) =~= here + seq![spec_step]);
                }
                offset = next;
            },
        }
    }
    if elements.len() == 0 {
        proof {
            assert(step_views(elements@).len() == 0);
        }
        return Err(FormatError::Empty);
    }
    Ok(elements)
}

// ---------------------------------------------------------------------------
// Consistency of the captures and type directives of a scanned description.

/// How many steps capture `c`.
pub open spec fn count_capture(steps: Seq<SpecFormatStep>, c: FormatCapture) -> nat
    decreases steps.len(),
{
    if steps.len() == 0 {
        0
    } else {
        count_capture(steps.drop_last(), c) + if steps.last() == SpecFormatStep::Capture(c) {
            1nat
        } else {
            0nat
        }
    }
}

/// How many steps are `attr-dict`.
pub open spec fn count_attribute_dictionaries(steps: Seq<SpecFormatStep>) -> nat
    decreases steps.len(),
{
    if steps.len() == 0 {
        0
    } else {
        count_attribute_dictionaries(steps.drop_last()) + if steps.last()
            is AttributeDictionary {
            1nat
        } else {
            0nat
        }
    }
}

/// The indices of the `$operands[N]` captures, in order.
pub open spec fn operand_indices(steps: Seq<SpecFormatStep>) -> Seq<usize>
    decreases steps.len(),
{
    if steps.len() == 0 {
        seq![]
    } else {
        let rest = operand_indices(steps.drop_last());
        match steps.last() {
            SpecFormatStep::Capture(FormatCapture::Operand(i)) => rest.push(i),
            _ => rest,
        }
    }
}

/// The targets of all type directives, in order.
pub open spec fn type_targets(steps: Seq<SpecFormatStep>) -> Seq<FormatTarget>
    decreases steps.len(),
{
    if steps.len() == 0 {
        seq![]
    } else {
        let rest = type_targets(steps.drop_last());
        match steps.last() {
            SpecFormatStep::Type(t) => rest + t.targets,
            _ => rest,
        }
    }
}

/// Whether the indices are exactly `0, 1, 2, ...`.
pub open spec fn in_order_from_zero(indices: Seq<usize>) -> bool {
    forall|k: int| 0 <= k < indices.len() ==> indices[k] == k
}

pub open spec fn is_value_type(step: SpecFormatStep) -> bool {
    step matches SpecFormatStep::Type(t) && t.targets.contains(FormatTarget::Value)
}

/// The position of the first `$value` capture at or after `i`, or the length.
pub open spec fn first_value_capture(steps: Seq<SpecFormatStep>, i: int) -> int
    decreases steps.len() - i,
{
    if i < 0 || i >= steps.len() {
        steps.len() as int
    } else if steps[i] == SpecFormatStep::Capture(FormatCapture::Value) {
        i
    } else {
        first_value_capture(steps, i + 1)
    }
}

/// The position of the first `type(...)` naming `$value` at or after `i`, or the length.
pub open spec fn first_value_type(steps: Seq<SpecFormatStep>, i: int) -> int
    decreases steps.len() - i,
{
    if i < 0 || i >= steps.len() {
        steps.len() as int
    } else if is_value_type(steps[i]) {
        i
    } else {
        first_value_type(steps, i + 1)
    }
}

/// A `type($value)` that comes before `$value`, or with more than literals between them.
pub open spec fn value_type_misplaced(steps: Seq<SpecFormatStep>) -> bool {
    let v = first_value_capture(steps, 0);
    let t = first_value_type(steps, 0);
    t < steps.len() && (t <= v || exists|k: int| v < k < t && !(steps[k] is Literal))
}

/// Whether `t` overlaps a target assigned earlier.
pub open spec fn overlaps(t: FormatTarget, assigned: Seq<FormatTarget>) -> bool {
    match t {
        FormatTarget::Operands => exists|k: int|
            0 <= k < assigned.len() && (assigned[k] is Operands || assigned[k] is Operand),
        FormatTarget::Operand(_) => assigned.contains(FormatTarget::Operands),
        FormatTarget::Results | FormatTarget::Result => assigned.contains(FormatTarget::Results)
            || assigned.contains(FormatTarget::Result),
        FormatTarget::Value => assigned.contains(FormatTarget::Value),
    }
}

/// What is wrong with assigning a type to `t` after `assigned`, if anything.
pub open spec fn target_error(
    t: FormatTarget,
    assigned: Seq<FormatTarget>,
    variadic: bool,
    indexed: Seq<usize>,
    value: bool,
) -> Option<FormatError> {
    let missing = match t {
        FormatTarget::Operands => if !(variadic || indexed.len() > 0) {
            Some(FormatError::OperandsTypeWithoutCapture)
        } else {
            None
        },
        FormatTarget::Operand(i) => if !variadic && !indexed.contains(i) {
            Some(FormatError::UncapturedOperandType { index: i })
        } else {
            None
        },
        FormatTarget::Value => if !value {
            Some(FormatError::ValueTypeWithoutCapture)
        } else {
            None
        },
        _ => None,
    };
    if missing is Some {
        missing
    } else if overlaps(t, assigned) {
        Some(FormatError::OverlappingTarget)
    } else if assigned.contains(t) {
        Some(FormatError::RepeatedTarget)
    } else {
        None
    }
}

/// The first error met assigning the targets of `flat` from position `k` on.
pub open spec fn targets_error(
    flat: Seq<FormatTarget>,
    k: int,
    variadic: bool,
    indexed: Seq<usize>,
    value: bool,
) -> Option<FormatError>
    decreases flat.len() - k,
{
    if k < 0 || k >= flat.len() {
        None
    } else {
        match target_error(flat[k], flat.subrange(0, k), variadic, indexed, value) {
            Some(e) => Some(e),
            None => targets_error(flat, k + 1, variadic, indexed, value),
        }
    }
}

/// The first rule that a scanned description breaks, if any.
pub open spec fn validation_error(steps: Seq<SpecFormatStep>) -> Option<FormatError> {
    let operands = count_capture(steps, FormatCapture::Operands);
    let values = count_capture(steps, FormatCapture::Value);
    let callees = count_capture(steps, FormatCapture::Callee);
    let indexed = operand_indices(steps);
    if count_attribute_dictionaries(steps) > 1 {
        Some(FormatError::RepeatedAttributeDictionary)
    } else if values > 1 || callees > 1 {
        Some(FormatError::RepeatedValueOrCallee)
    } else if operands > 0 && indexed.len() > 0 {
        Some(FormatError::MixedOperands)
    } else if operands > 1 {
        Some(FormatError::RepeatedOperands)
    } else if indexed.len() > 0 && !in_order_from_zero(indexed) {
        Some(FormatError::UnorderedOperands)
    } else if values > 0 && (operands > 0 || indexed.len() > 0 || callees > 0) {
        Some(FormatError::ValueWithOperands)
    } else if values > 0 && value_type_misplaced(steps) {
        Some(FormatError::MisplacedValueType)
    } else {
        targets_error(type_targets(steps), 0, operands > 0, indexed, values > 0)
    }
}

proof fn lemma_step_views_push(steps: Seq<FormatStep>, i: int)
    requires
        0 <= i < steps.len(),
    ensures
        step_views(steps.subrange(0, i + 1)).drop_last() == step_views(steps.subrange(0, i)),
        step_views(steps.subrange(0, i + 1)).last() == steps[i]@,
        step_views(steps.subrange(0, i + 1)).len() == i + 1,
{
    assert(step_views(steps.subrange(0, i + 1)).drop_last() =~= step_views(steps.subrange(0, i)));
}

proof fn lemma_count_capture_bound(steps: Seq<SpecFormatStep>, c: FormatCapture)
    ensures
        count_capture(steps, c) <= steps.len(),
    decreases steps.len(),
{
    if steps.len() > 0 {
        lemma_count_capture_bound(steps.drop_last(), c);
    }
}

proof fn lemma_count_attribute_bound(steps: Seq<SpecFormatStep>)
    ensures
        count_attribute_dictionaries(steps) <= steps.len(),
    decreases steps.len(),
{
    if steps.len() > 0 {
        lemma_count_attribute_bound(steps.drop_last());
    }
}

/// Counts of the captures: `$operands`, `$value`, `$callee`, `attr-dict`, and the indices.
fn tally(steps: &Vec<FormatStep>) -> (r: (usize, usize, usize, usize, Vec<usize>))
    ensures
        r.0 == count_capture(step_views(steps@), FormatCapture::Operands),
        r.1 == count_capture(step_views(steps@), FormatCapture::Value),
        r.2 == count_capture(step_views(steps@), FormatCapture::Callee),
        r.3 == count_attribute_dictionaries(step_views(steps@)),
        r.4@ == operand_indices(step_views(steps@)),
{
    let mut operands: usize = 0;
    let mut values: usize = 0;
    let mut callees: usize = 0;
    let mut attributes: usize = 0;
    let mut indexed: Vec<usize> = Vec::new();
    let mut i: usize = 0;
    while i < steps.len()
        invariant
            i <= steps@.len(),
            operands == count_capture(step_views(steps@.subrange(0, i as int)), FormatCapture::Operands),
            values == count_capture(step_views(steps@.subrange(0, i as int)), FormatCapture::Value),
            callees == count_capture(step_views(steps@.subrange(0, i as int)), FormatCapture::Callee),
            attributes == count_attribute_dictionaries(step_views(steps@.subrange(0, i as int))),
            indexed@ == operand_indices(step_views(steps@.subrange(0, i as int))),
        decreases steps@.len() - i,
    {
        proof {
            lemma_step_views_push(steps@, i as int);
            let prefix = step_views(steps@.subrange(0, i as int));
            lemma_count_capture_bound(prefix, FormatCapture::Operands);
            lemma_count_capture_bound(prefix, FormatCapture::Value);
            lemma_count_capture_bound(prefix, FormatCapture::Callee);
            lemma_count_attribute_bound(prefix);
        }
        match &steps[i] {
            FormatStep::Capture(FormatCapture::Operands) => {
                operands = operands + 1;
            },
            FormatStep::Capture(FormatCapture::Operand(index)) => {
                indexed.push(*index);
            },
            FormatStep::Capture(FormatCapture::Value) => {
                values = values + 1;
            },
            FormatStep::Capture(FormatCapture::Callee) => {
                callees = callees + 1;
            },
            FormatStep::AttributeDictionary => {
                attributes = attributes + 1;
            },
            _ => {},
        }
        i = i + 1;
    }
    proof {
        assert(steps@.subrange(0, i as int) =~= steps@);
    }
    (operands, values, callees, attributes, indexed)
}

fn in_order_from_zero_exec(indices: &Vec<usize>) -> (r: bool)
    ensures
        r == in_order_from_zero(indices@),
{
    let mut k: usize = 0;
    while k < indices.len()
        invariant
            k <= indices@.len(),
            forall|j: int| 0 <= j < k ==> indices@[j] == j,
        decreases indices@.len() - k,
    {
        if indices[k] != k {
            return false;
        }
        k = k + 1;
    }
    true
}

fn contains_target(ts: &Vec<FormatTarget>, t: FormatTarget) -> (r: bool)
    ensures
        r == ts@.contains(t),
{
    let mut k: usize = 0;
    while k < ts.len()
        invariant
            k <= ts@.len(),
            forall|j: int| 0 <= j < k ==> ts@[j] != t,
        decreases ts@.len() - k,
    {
        if ts[k] == t {
            return true;
        }
        k = k + 1;
    }
    false
}

fn contains_index(v: &Vec<usize>, x: usize) -> (r: bool)
    ensures
        r == v@.contains(x),
{
    let mut k: usize = 0;
    while k < v.len()
        invariant
            k <= v@.len(),
            forall|j: int| 0 <= j < k ==> v@[j] != x,
        decreases v@.len() - k,
    {
        if v[k] == x {
            return true;
        }
        k = k + 1;
    }
    false
}

fn overlaps_exec(t: FormatTarget, assigned: &Vec<FormatTarget>) -> (r: bool)
    ensures
        r == overlaps(t, assigned@),
{
    match t {
        FormatTarget::Operands => {
            let mut k: usize = 0;
            while k < assigned.len()
                invariant
                    t == FormatTarget::Operands,
                    k <= assigned@.len(),
                    forall|j: int| 0 <= j < k ==> !(assigned@[j] is Operands || assigned@[j] is Operand),
                decreases assigned@.len() - k,
            {
                let a = assigned[k];
                match a {
                    FormatTarget::Operands | FormatTarget::Operand(_) => {
                        assert(a is Operands || a is Operand);
                        return true;
                    },
                    _ => {},
                }
                k = k + 1;
            }
            false
        },
        FormatTarget::Operand(_) => contains_target(assigned, FormatTarget::Operands),
        FormatTarget::Results | FormatTarget::Result => contains_target(
            assigned,
            FormatTarget::Results,
        ) || contains_target(assigned, FormatTarget::Result),
        FormatTarget::Value => contains_target(assigned, FormatTarget::Value),
    }
}

fn target_error_exec(
    t: FormatTarget,
    assigned: &Vec<FormatTarget>,
    variadic: bool,
    indexed: &Vec<usize>,
    value: bool,
) -> (r: Option<FormatError>)
    ensures
        r == target_error(t, assigned@, variadic, indexed@, value),
{
    let missing = match t {
        FormatTarget::Operands => if !(variadic || indexed.len() > 0) {
            Some(FormatError::OperandsTypeWithoutCapture)
        } else {
            None
        },
        FormatTarget::Operand(i) => if !variadic && !contains_index(indexed, i) {
            Some(FormatError::UncapturedOperandType { index: i })
        } else {
            None
        },
        FormatTarget::Value => if !value {
            Some(FormatError::ValueTypeWithoutCapture)
        } else {
            None
        },
        _ => None,
    };
    if missing.is_some() {
        missing
    } else if overlaps_exec(t, assigned) {
        Some(FormatError::OverlappingTarget)
    } else if contains_target(assigned, t) {
        Some(FormatError::RepeatedTarget)
    } else {
        None
    }
}

/// The targets of all type directives, in order.
fn type_targets_exec(steps: &Vec<FormatStep>) -> (r: Vec<FormatTarget>)
    ensures
        r@ == type_targets(step_views(steps@)),
{
    let mut flat: Vec<FormatTarget> = Vec::new();
    let mut i: usize = 0;
    while i < steps.len()
        invariant
            i <= steps@.len(),
            flat@ == type_targets(step_views(steps@.subrange(0, i as int))),
        decreases steps@.len() - i,
    {
        proof {
            lemma_step_views_push(steps@, i as int);
        }
        match &steps[i] {
            FormatStep::Type(capture) => {
                let ghost before = flat@;
                let mut k: usize = 0;
                while k < capture.targets.len()
                    invariant
                        k <= capture.targets@.len(),
                        flat@ == before + capture.targets@.subrange(0, k as int),
                    decreases capture.targets@.len() - k,
                {
                    flat.push(capture.targets[k]);
                    k = k + 1;
                    proof {
                        assert(flat@ =~= before + capture.targets@.subrange(0, k as int));
                    }
                }
                proof {
                    assert(capture.targets@.subrange(0, k as int) =~= capture.targets@);
                }
            },
            _ => {},
        }
        i = i + 1;
    }
    proof {
        assert(steps@.subrange(0, i as int) =~= steps@);
    }
    flat
}

fn targets_error_exec(flat: &Vec<FormatTarget>, variadic: bool, indexed: &Vec<usize>, value: bool) -> (r:
    Option<FormatError>)
    ensures
        r == targets_error(flat@, 0, variadic, indexed@, value),
{
    let mut assigned: Vec<FormatTarget> = Vec::new();
    let mut k: usize = 0;
    while k < flat.len()
        invariant
            k <= flat@.len(),
            assigned@ == flat@.subrange(0, k as int),
            targets_error(flat@, 0, variadic, indexed@, value) == targets_error(
                flat@,
                k as int,
                variadic,
                indexed@,
                value,
            ),
        decreases flat@.len() - k,
    {
        let t = flat[k];
        if let Some(e) = target_error_exec(t, &assigned, variadic, indexed, value) {
            return Some(e);
        }
        assigned.push(t);
        k = k + 1;
        proof {
            assert(assigned@ =~= flat@.subrange(0, k as int));
        }
    }
    None
}

proof fn lemma_first_value_capture_bounds(steps: Seq<SpecFormatStep>, i: int)
    requires
        0 <= i <= steps.len(),
    ensures
        i <= first_value_capture(steps, i) <= steps.len(),
    decreases steps.len() - i,
{
    if i < steps.len() && steps[i] != SpecFormatStep::Capture(FormatCapture::Value) {
        lemma_first_value_capture_bounds(steps, i + 1);
    }
}

proof fn lemma_first_value_type_bounds(steps: Seq<SpecFormatStep>, i: int)
    requires
        0 <= i <= steps.len(),
    ensures
        i <= first_value_type(steps, i) <= steps.len(),
    decreases steps.len() - i,
{
    if i < steps.len() && !is_value_type(steps[i]) {
        lemma_first_value_type_bounds(steps, i + 1);
    }
}

fn first_value_capture_exec(steps: &Vec<FormatStep>) -> (r: usize)
    ensures
        r == first_value_capture(step_views(steps@), 0),
        r <= steps@.len(),
{
    let ghost sv = step_views(steps@);
    let mut i: usize = 0;
    while i < steps.len()
        invariant
            sv == step_views(steps@),
            i <= steps@.len(),
            first_value_capture(sv, 0) == first_value_capture(sv, i as int),
        decreases steps@.len() - i,
    {
        assert(sv[i as int] == steps@[i as int]@);
        match &steps[i] {
            FormatStep::Capture(FormatCapture::Value) => {
                return i;
            },
            _ => {},
        }
        i = i + 1;
    }
    i
}

fn first_value_type_exec(steps: &Vec<FormatStep>) -> (r: usize)
    ensures
        r == first_value_type(step_views(steps@), 0),
        r <= steps@.len(),
{
    let ghost sv = step_views(steps@);
    let mut i: usize = 0;
    while i < steps.len()
        invariant
            sv == step_views(steps@),
            i <= steps@.len(),
            first_value_type(sv, 0) == first_value_type(sv, i as int),
        decreases steps@.len() - i,
    {
        assert(sv[i as int] == steps@[i as int]@);
        match &steps[i] {
            FormatStep::Type(capture) => {
                if contains_target(&capture.targets, FormatTarget::Value) {
                    return i;
                }
            },
            _ => {},
        }
        i = i + 1;
    }
    i
}

fn value_type_misplaced_exec(steps: &Vec<FormatStep>) -> (r: bool)
    ensures
        r == value_type_misplaced(step_views(steps@)),
{
    let ghost sv = step_views(steps@);
    let v = first_value_capture_exec(steps);
    let t = first_value_type_exec(steps);
    if t >= steps.len() {
        return false;
    }
    if t <= v {
        return true;
    }
    let mut k: usize = v + 1;
    while k < t
        invariant
            sv == step_views(steps@),
            v < t < steps@.len(),
            v + 1 <= k <= t,
            v == first_value_capture(sv, 0),
            t == first_value_type(sv, 0),
            forall|j: int| v < j < k ==> sv[j] is Literal,
        decreases t - k,
    {
        assert(sv[k as int] == steps@[k as int]@);
        match &steps[k] {
            FormatStep::Literal(_) => {},
            _ => {
                assert(!(sv[k as int] is Literal));
                return true;
            },
        }
        k = k + 1;
    }
    false
}

/// Checks a scanned description against the rules on captures and type directives.
fn validate(steps: &Vec<FormatStep>) -> (r: Result<(), FormatError>)
    ensures
        r == (match validation_error(step_views(steps@)) {
            Some(e) => Err(e),
            None => Ok(()),
        }),
{
    let (operands, values, callees, attributes, indexed) = tally(steps);
    if attributes > 1 {
        return Err(FormatError::RepeatedAttributeDictionary);
    }
    if values > 1 || callees > 1 {
        return Err(FormatError::RepeatedValueOrCallee);
    }
    if operands > 0 && indexed.len() > 0 {
        return Err(FormatError::MixedOperands);
    }
    if operands > 1 {
        return Err(FormatError::RepeatedOperands);
    }
    if indexed.len() > 0 && !in_order_from_zero_exec(&indexed) {
        return Err(FormatError::UnorderedOperands);
    }
    if values > 0 && (operands > 0 || indexed.len() > 0 || callees > 0) {
        return Err(FormatError::ValueWithOperands);
    }
    if values > 0 && value_type_misplaced_exec(steps) {
        return Err(FormatError::MisplacedValueType);
    }
    let flat = type_targets_exec(steps);
    match targets_error_exec(&flat, operands > 0, &indexed, values > 0) {
        Some(e) => Err(e),
        None => Ok(()),
    }
}

// ---------------------------------------------------------------------------
// Compiling a description into parser steps.

/// Whether some type directive names `$value`.
pub open spec fn typed_value(steps: Seq<SpecFormatStep>) -> bool {
    exists|k: int| 0 <= k < steps.len() && is_value_type(#[trigger] steps[k])
}

/// The parser steps for one raw step: `$value` opens a constant-value node, closed
/// after it unless a `type($value)` closes it; a type directive sits in a function-type node.
pub open spec fn expand_step(step: SpecFormatStep, typed: bool) -> Seq<SpecFormatStep> {
    match step {
        SpecFormatStep::Capture(FormatCapture::Value) => if typed {
            seq![
                SpecFormatStep::Begin(SyntaxKind::ArithConstantValue),
                SpecFormatStep::Capture(FormatCapture::Value),
            ]
        } else {
            seq![
                SpecFormatStep::Begin(SyntaxKind::ArithConstantValue),
                SpecFormatStep::Capture(FormatCapture::Value),
                SpecFormatStep::End(SyntaxKind::ArithConstantValue),
            ]
        },
        SpecFormatStep::Type(t) => seq![
            SpecFormatStep::Begin(SyntaxKind::FunctionType),
            SpecFormatStep::Type(t),
            SpecFormatStep::End(SyntaxKind::FunctionType),
        ] + if t.targets.contains(FormatTarget::Value) {
            seq![SpecFormatStep::End(SyntaxKind::ArithConstantValue)]
        } else {
            Seq::<SpecFormatStep>::empty()
        },
        _ => seq![step],
    }
}

/// The parser steps for a sequence of raw steps.
pub open spec fn expand(steps: Seq<SpecFormatStep>, typed: bool) -> Seq<SpecFormatStep>
    decreases steps.len(),
{
    if steps.len() == 0 {
        seq![]
    } else {
        expand(steps.drop_last(), typed) + expand_step(steps.last(), typed)
    }
}

/// The type directives among the steps, in order.
pub open spec fn type_captures(steps: Seq<SpecFormatStep>) -> Seq<SpecTypeCapture>
    decreases steps.len(),
{
    if steps.len() == 0 {
        seq![]
    } else {
        let rest = type_captures(steps.drop_last());
        match steps.last() {
            SpecFormatStep::Type(t) => rest.push(t),
            _ => rest,
        }
    }
}

/// What a description compiles to: its parser steps and its type directives.
pub open spec fn spec_parse_format(d: Seq<u8>) -> Result<
    (Seq<SpecFormatStep>, Seq<SpecTypeCapture>),
    FormatError,
> {
    match spec_scan(d) {
        Err(e) => Err(e),
        Ok(raw) => match validation_error(raw) {
            Some(e) => Err(e),
            None => Ok((expand(raw, typed_value(raw)), type_captures(raw))),
        },
    }
}

fn copy_capture(c: &FormatTypeCapture) -> (r: FormatTypeCapture)
    ensures
        r@ == c@,
{
    let mut targets: Vec<FormatTarget> = Vec::new();
    let mut k: usize = 0;
    while k < c.targets.len()
        invariant
            k <= c.targets@.len(),
            targets@ == c.targets@.subrange(0, k as int),
        decreases c.targets@.len() - k,
    {
        targets.push(c.targets[k]);
        k = k + 1;
        proof {
            assert(targets@ =~= c.targets@.subrange(0, k as int));
        }
    }
    proof {
        assert(c.targets@.subrange(0, k as int) =~= c.targets@);
    }
    FormatTypeCapture { targets, per_operand_list: c.per_operand_list }
}

fn copy_step(step: &FormatStep) -> (r: FormatStep)
    ensures
        r@ == step@,
{
    match step {
        FormatStep::Begin(k) => FormatStep::Begin(*k),
        FormatStep::Capture(c) => FormatStep::Capture(*c),
        FormatStep::AttributeDictionary => FormatStep::AttributeDictionary,
        FormatStep::Literal(l) => FormatStep::Literal(slice_to_vec(l.as_slice())),
        FormatStep::Type(t) => FormatStep::Type(copy_capture(t)),
        FormatStep::End(k) => FormatStep::End(*k),
    }
}

proof fn lemma_typed_value_first(steps: Seq<SpecFormatStep>, i: int)
    requires
        0 <= i <= steps.len(),
        forall|k: int| 0 <= k < i ==> !is_value_type(#[trigger] steps[k]),
    ensures
        typed_value(steps) <==> first_value_type(steps, i) < steps.len(),
    decreases steps.len() - i,
{
    if i < steps.len() && !is_value_type(steps[i]) {
        lemma_typed_value_first(steps, i + 1);
    }
}

/// A compiled operation format: the description, the parser steps, and the type directives.
#[derive(Clone, Debug, PartialEq, Eq)]
pub struct OperationFormat {
    description: String,
    steps: Vec<FormatStep>,
    types: Vec<FormatTypeCapture>,
}

impl OperationFormat {
    pub closed spec fn spec_description(&self) -> Seq<char> {
        self.description@
    }

    pub closed spec fn spec_steps(&self) -> Seq<SpecFormatStep> {
        step_views(self.steps@)
    }

    pub closed spec fn spec_types(&self) -> Seq<SpecTypeCapture> {
        self.types@.map_values(|t: FormatTypeCapture| t@)
    }

    /// Compiles a description, or says which rule it breaks.
    pub fn parse(description: &str) -> (r: Result<Self, FormatError>)
        ensures
            match (r, spec_parse_format(description.spec_bytes())) {
                (Ok(f), Ok((steps, types))) => f.spec_steps() == steps && f.spec_types() == types
                    && f.spec_description() == description@,
                (Err(e), Err(spec_e)) => e == spec_e,
                _ => false,
            },
    {
        let bytes = description.as_bytes();
        let raw = match scan(bytes) {
            Err(e) => {
                return Err(e);
            },
            Ok(raw) => raw,
        };
        if let Err(e) = validate(&raw) {
            return Err(e);
        }
        let ghost rv = step_views(raw@);
        let typed = first_value_type_exec(&raw) < raw.len();
        proof {
            lemma_typed_value_first(rv, 0);
        }
        let mut steps: Vec<FormatStep> = Vec::new();
        let mut types: Vec<FormatTypeCapture> = Vec::new();
        let mut i: usize = 0;
        while i < raw.len()
            invariant
                i <= raw@.len(),
                rv == step_views(raw@),
                typed == typed_value(rv),
                step_views(steps@) == expand(step_views(raw@.subrange(0, i as int)), typed),
                types@.map_values(|t: FormatTypeCapture| t@) == type_captures(
                    step_views(raw@.subrange(0, i as int)),
                ),
            decreases raw@.len() - i,
        {
            proof {
                lemma_step_views_push(raw@, i as int);
            }
            let ghost before = step_views(steps@);
            let ghost types_before = types@.map_values(|t: FormatTypeCapture| t@);
            match &raw[i] {
                FormatStep::Capture(FormatCapture::Value) => {
                    steps.push(FormatStep::Begin(SyntaxKind::ArithConstantValue));
                    steps.push(FormatStep::Capture(FormatCapture::Value));
                    if !typed {
                        steps.push(FormatStep::End(SyntaxKind::ArithConstantValue));
                    }
                },
                FormatStep::Type(capture) => {
                    let closes_value = contains_target(&capture.targets, FormatTarget::Value);
                    steps.push(FormatStep::Begin(SyntaxKind::FunctionType));
                    steps.push(FormatStep::Type(copy_capture(capture)));
                    steps.push(FormatStep::End(SyntaxKind::FunctionType));
                    if closes_value {
                        steps.push(FormatStep::End(SyntaxKind::ArithConstantValue));
                    }
                    types.push(copy_capture(capture));
                    proof {
                        assert(types@.map_values(|t: FormatTypeCapture| t@) =~= types_before.push(
                            capture@,
                        ));
                    }
                },
                other => {
                    steps.push(copy_step(other));
                },
            }
            proof {
                assert(step_views(steps@) =~= before + expand_step(raw@[i as int]@, typed));
                if !(raw@[i as int] is Type) {
                    assert(types@.map_values(|t: FormatTypeCapture| t@) =~= types_before);
                }
            }
            i = i + 1;
        }
        proof {
            assert(raw@.subrange(0, i as int) =~= raw@);
        }
        Ok(OperationFormat { description: description.to_owned(), steps, types })
    }

    /// The description text.
    pub fn description(&self) -> (r: &str)
        ensures
            r@ == self.spec_description(),
    {
        self.description.as_str()
    }

    /// The parser steps.
    pub fn steps(&self) -> (r: &[FormatStep])
        ensures
            step_views(r@) == self.spec_steps(),
    {
        self.steps.as_slice()
    }

    /// The type directives, in order.
    pub fn types(&self) -> (r: &[FormatTypeCapture])
        ensures
            r@.map_values(|t: FormatTypeCapture| t@) == self.spec_types(),
    {
        self.types.as_slice()
    }

    /// Whether the format captures a `$value`.
    pub fn captures_value(&self) -> (r: bool)
        ensures
            r == self.spec_steps().contains(SpecFormatStep::Capture(FormatCapture::Value)),
    {
        self.captures(FormatCapture::Value)
    }

    /// Whether the format captures a `$callee`.
    pub fn captures_callee(&self) -> (r: bool)
        ensures
            r == self.spec_steps().contains(SpecFormatStep::Capture(FormatCapture::Callee)),
    {
        self.captures(FormatCapture::Callee)
    }

    fn captures(&self, c: FormatCapture) -> (r: bool)
        ensures
            r == self.spec_steps().contains(SpecFormatStep::Capture(c)),
    {
        let ghost sv = self.spec_steps();
        let mut k: usize = 0;
        while k < self.steps.len()
            invariant
                sv == step_views(self.steps@),
                k <= self.steps@.len(),
                forall|j: int| 0 <= j < k ==> sv[j] != SpecFormatStep::Capture(c),
            decreases self.steps@.len() - k,
        {
            assert(sv[k as int] == self.steps@[k as int]@);
            match &self.steps[k] {
                FormatStep::Capture(x) => {
                    if *x == c {
                        return true;
                    }
                },
                _ => {},
            }
            k = k + 1;
        }
        false
    }

    /// The bytes that identify the format: those of its description.
    pub fn identity_bytes(&self) -> (r: &[u8])
        ensures
            r@ == encode_utf8(self.spec_description()),
    {
        self.description.as_str().as_bytes()
    }
}

} // verus!
